//! Shapes of LIKE patterns.

use vstd::prelude::*;
use vstd::string::StrSliceExecFns;

use crate::value::{Value, ValueView};

verus! {

/// A pattern whose only wildcard is `%`, after runs of it are made one. Such
/// runs do not change what a pattern matches, so their number is no property.
#[derive(Clone, Copy, Debug, PartialEq, Eq, Structural)]
pub struct WildcardLikePattern {
    pub anchored_start: bool,
    pub anchored_end: bool,
    pub literal_fragments: usize,
}

#[derive(Clone, Copy, Debug, PartialEq, Eq, Structural)]
pub enum LikePatternShape {
    MatchAll,
    Exact,
    Wildcard(WildcardLikePattern),
    Generic,
}

/// Number of maximal runs of characters other than `%` in the first `n`.
pub open spec fn fragments(pattern: Seq<char>, n: nat) -> nat
    decreases n,
{
    if n == 0 || n > pattern.len() {
        0
    } else if pattern[n - 1] != '%' && (n == 1 || pattern[n - 2] == '%') {
        fragments(pattern, (n - 1) as nat) + 1
    } else {
        fragments(pattern, (n - 1) as nat)
    }
}

pub open spec fn pattern_shape(pattern: Seq<char>) -> LikePatternShape {
    if pattern.contains('_') || pattern.contains('\\') {
        LikePatternShape::Generic
    } else if !pattern.contains('%') {
        LikePatternShape::Exact
    } else if fragments(pattern, pattern.len()) == 0 {
        LikePatternShape::MatchAll
    } else {
        LikePatternShape::Wildcard(
            WildcardLikePattern {
                anchored_start: pattern[0] != '%',
                anchored_end: pattern.last() != '%',
                literal_fragments: fragments(pattern, pattern.len()) as usize,
            },
        )
    }
}

pub open spec fn value_shape(pattern: Option<ValueView>) -> LikePatternShape {
    match pattern {
        Some(ValueView::Text(text)) => pattern_shape(text),
        _ => LikePatternShape::Generic,
    }
}

pub open spec fn optional_view(pattern: Option<&Value>) -> Option<ValueView> {
    match pattern {
        Some(value) => Some(value@),
        None => None,
    }
}

proof fn lemma_fragments(pattern: Seq<char>, n: nat)
    requires
        n <= pattern.len(),
    ensures
        fragments(pattern, n) <= n,
    decreases n,
{
    if n > 0 {
        lemma_fragments(pattern, (n - 1) as nat);
    }
}

proof fn lemma_repeated_wildcard(pattern: Seq<char>, i: int, n: nat)
    requires
        0 <= i < pattern.len(),
        pattern[i] == '%',
        n <= pattern.len(),
    ensures
        n <= i ==> fragments(pattern.insert(i, '%'), n) == fragments(pattern, n),
        n >= i ==> fragments(pattern.insert(i, '%'), n + 1) == fragments(pattern, n),
    decreases n,
{
    let longer = pattern.insert(i, '%');
    if n > 0 {
        lemma_repeated_wildcard(pattern, i, (n - 1) as nat);
    }
    if n == i {
        assert(longer[i] == '%');
        assert(fragments(longer, n + 1) == fragments(longer, n));
    } else if n > i {
        assert(longer[n as int] == pattern[n - 1]);
        assert(fragments(longer, n + 1) == fragments(pattern, n)) by {
            if n - 1 == i {
                assert(pattern[n - 1] == '%');
            } else {
                assert(longer[n - 1] == pattern[n - 2]);
            }
        }
    }
}

/// Another `%` beside one that a pattern has changes nothing.
pub proof fn repeated_wildcards_change_nothing(pattern: Seq<char>, i: int)
    requires
        0 <= i < pattern.len(),
        pattern[i] == '%',
    ensures
        pattern_shape(pattern.insert(i, '%')) == pattern_shape(pattern),
{
    let longer = pattern.insert(i, '%');
    lemma_repeated_wildcard(pattern, i, pattern.len());
    assert forall|c: char| longer.contains(c) == pattern.contains(c) by {
        if longer.contains(c) {
            let k = choose|k: int| 0 <= k < longer.len() && longer[k] == c;
            if k < i {
                assert(pattern[k] == c);
            } else if k == i {
                assert(pattern[i] == c);
            } else {
                assert(pattern[k - 1] == c);
            }
        }
        if pattern.contains(c) {
            let k = choose|k: int| 0 <= k < pattern.len() && pattern[k] == c;
            if k < i {
                assert(longer[k] == c);
            } else {
                assert(longer[k + 1] == c);
            }
        }
    }
    assert(longer[0] == pattern[0]);
    assert(longer.last() == pattern.last());
}

/// The shape of a LIKE pattern; only a text literal has one.
pub fn like_pattern_shape(pattern: Option<&Value>) -> (r: LikePatternShape)
    ensures
        r == value_shape(optional_view(pattern)),
{
    let Some(Value::Varchar(text)) = pattern else {
        return LikePatternShape::Generic;
    };
    let ghost characters = text@;
    let total: usize = text.as_str().unicode_len();
    let mut wildcard: bool = false;
    let mut generic: bool = false;
    let mut count: usize = 0;
    let mut first: Option<char> = None;
    let mut previous: Option<char> = None;
    for c in iter: text.chars()
        invariant
            iter.seq() == characters,
            0 <= iter.index() <= characters.len(),
            generic <==> (exists|k: int|
                0 <= k < iter.index() && ((#[trigger] characters[k]) == '_' || characters[k]
                    == '\\')),
            wildcard <==> (exists|k: int|
                0 <= k < iter.index() && (#[trigger] characters[k]) == '%'),
            iter.index() == 0 ==> first is None && previous is None,
            iter.index() > 0 ==> first == Some(characters[0]) && previous == Some(
                characters[iter.index() - 1],
            ),
            count == fragments(characters, iter.index() as nat),
            total == characters.len(),
    {
        proof {
            lemma_fragments(characters, iter.index() as nat);
        }
        if c == '_' || c == '\\' {
            generic = true;
        }
        if c == '%' {
            wildcard = true;
        } else {
            let starts = match previous {
                Some(before) => before == '%',
                None => true,
            };
            if starts {
                count = count + 1;
            }
        }
        if first.is_none() {
            first = Some(c);
        }
        previous = Some(c);
    }
    if generic {
        return LikePatternShape::Generic;
    }
    if !wildcard {
        return LikePatternShape::Exact;
    }
    if count == 0 {
        return LikePatternShape::MatchAll;
    }
    match (first, previous) {
        (Some(first), Some(last)) => LikePatternShape::Wildcard(
            WildcardLikePattern {
                anchored_start: first != '%',
                anchored_end: last != '%',
                literal_fragments: count,
            },
        ),
        _ => LikePatternShape::MatchAll,
    }
}

/// Whether a text matches a pattern: `%` stands for any characters, `_` for one,
/// a backslash for the character that follows it, and anything else for itself.
pub open spec fn like(text: Seq<char>, pattern: Seq<char>) -> bool
    decreases text.len() + pattern.len(),
{
    if pattern.len() == 0 {
        text.len() == 0
    } else if pattern[0] == '%' {
        like(text, pattern.skip(1)) || (text.len() > 0 && like(text.skip(1), pattern))
    } else if text.len() == 0 {
        false
    } else if pattern[0] == '_' {
        like(text.skip(1), pattern.skip(1))
    } else if pattern[0] == '\\' && pattern.len() > 1 {
        text[0] == pattern[1] && like(text.skip(1), pattern.skip(2))
    } else {
        text[0] == pattern[0] && like(text.skip(1), pattern.skip(1))
    }
}

proof fn lemma_skip_keeps_out<A>(s: Seq<A>, x: A)
    requires
        s.len() > 0,
        !s.contains(x),
    ensures
        s[0] != x,
        !s.skip(1).contains(x),
{
    assert(s.contains(s[0]));
    if s.skip(1).contains(x) {
        let k = choose|k: int| 0 <= k < s.skip(1).len() && s.skip(1)[k] == x;
        assert(s[k + 1] == x);
    }
}

/// A pattern without wildcards matches itself alone.
pub proof fn exact_pattern_matches_itself(text: Seq<char>, pattern: Seq<char>)
    requires
        pattern_shape(pattern) is Exact,
    ensures
        like(text, pattern) <==> text == pattern,
    decreases pattern.len(),
{
    if pattern.len() > 0 {
        lemma_skip_keeps_out(pattern, '%');
        lemma_skip_keeps_out(pattern, '_');
        lemma_skip_keeps_out(pattern, '\\');
        if text.len() > 0 {
            exact_pattern_matches_itself(text.skip(1), pattern.skip(1));
            if text[0] == pattern[0] && text.skip(1) == pattern.skip(1) {
                assert(text =~= seq![pattern[0]] + pattern.skip(1));
                assert(pattern =~= seq![pattern[0]] + pattern.skip(1));
            }
        }
    } else {
        assert(text.len() == 0 <==> text =~= pattern);
    }
}

proof fn lemma_no_fragment(pattern: Seq<char>, n: nat, i: int)
    requires
        0 <= i < n <= pattern.len(),
        fragments(pattern, n) == 0,
    ensures
        pattern[i] == '%',
    decreases n,
{
    if i < n - 1 {
        lemma_no_fragment(pattern, (n - 1) as nat, i);
    } else if n > 1 {
        lemma_no_fragment(pattern, (n - 1) as nat, n - 2);
    }
}

proof fn lemma_wildcards_match(text: Seq<char>, pattern: Seq<char>)
    requires
        pattern.len() > 0,
        forall|i: int| 0 <= i < pattern.len() ==> #[trigger] pattern[i] == '%',
    ensures
        like(text, pattern),
    decreases text.len() + pattern.len(),
{
    assert(pattern[0] == '%');
    if text.len() > 0 {
        lemma_wildcards_match(text.skip(1), pattern);
    } else if pattern.len() > 1 {
        assert forall|i: int| 0 <= i < pattern.skip(1).len() implies #[trigger] pattern.skip(1)[i]
            == '%' by {
            assert(pattern[i + 1] == '%');
        }
        lemma_wildcards_match(text, pattern.skip(1));
    } else {
        assert(like(text, pattern.skip(1)));
    }
}

/// A pattern of nothing but wildcards for any characters matches every text.
pub proof fn match_all_pattern_matches_everything(text: Seq<char>, pattern: Seq<char>)
    requires
        pattern_shape(pattern) is MatchAll,
    ensures
        like(text, pattern),
{
    assert forall|i: int| 0 <= i < pattern.len() implies #[trigger] pattern[i] == '%' by {
        lemma_no_fragment(pattern, pattern.len(), i);
    }
    assert(pattern.len() > 0) by {
        let k = choose|k: int| 0 <= k < pattern.len() && pattern[k] == '%';
    }
    lemma_wildcards_match(text, pattern);
}

proof fn lemma_last_matches(text: Seq<char>, pattern: Seq<char>)
    requires
        pattern.len() > 0,
        pattern.last() != '%',
        !pattern.contains('_'),
        !pattern.contains('\\'),
        like(text, pattern),
    ensures
        text.len() > 0,
        text.last() == pattern.last(),
    decreases text.len() + pattern.len(),
{
    lemma_skip_keeps_out(pattern, '_');
    lemma_skip_keeps_out(pattern, '\\');
    if pattern[0] == '%' {
        assert(pattern.len() > 1);
        if like(text, pattern.skip(1)) {
            lemma_last_matches(text, pattern.skip(1));
        } else {
            lemma_last_matches(text.skip(1), pattern);
        }
    } else if pattern.len() > 1 {
        lemma_last_matches(text.skip(1), pattern.skip(1));
    } else {
        assert(like(text.skip(1), pattern.skip(1)));
        assert(text.skip(1).len() == 0);
    }
}

/// A pattern that is anchored at an end fixes the character there; one that is not
/// matches a text whatever is added at that end.
pub proof fn anchors_fix_the_ends(text: Seq<char>, pattern: Seq<char>, c: char)
    requires
        pattern_shape(pattern) is Wildcard,
        like(text, pattern),
    ensures
        ({
            let found = pattern_shape(pattern)->Wildcard_0;
            &&& found.anchored_start ==> text.len() > 0 && text[0] == pattern[0]
            &&& found.anchored_end ==> text.len() > 0 && text.last() == pattern.last()
            &&& !found.anchored_start ==> like(seq![c] + text, pattern)
        }),
{
    let k = choose|k: int| 0 <= k < pattern.len() && pattern[k] == '%';
    assert(pattern.contains(pattern[0]));
    if pattern.last() != '%' {
        lemma_last_matches(text, pattern);
    }
    assert((seq![c] + text).skip(1) =~= text);
}

/// A wildcard pattern has a literal fragment, and no more of them than characters
/// that are no wildcards.
pub proof fn fragments_are_literal(pattern: Seq<char>, n: nat)
    requires
        n <= pattern.len(),
    ensures
        fragments(pattern, n) <= pattern.take(n as int).filter(|c: char| c != '%').len(),
        fragments(pattern, n) == 0 <==> pattern.take(n as int).filter(|c: char| c != '%').len()
            == 0,
    decreases n,
{
    reveal(Seq::filter);
    if n > 0 {
        fragments_are_literal(pattern, (n - 1) as nat);
        assert(pattern.take(n as int).drop_last() =~= pattern.take(n - 1));
        if n > 1 {
            assert(pattern.take(n - 1).last() == pattern[n - 2]);
        } else {
            assert(pattern.take(0).len() == 0);
        }
    }
}

} // verus!
