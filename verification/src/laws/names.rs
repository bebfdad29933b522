//! Names and numbers in text: which slug a name has, by its words, and what digits stand for.

use vstd::prelude::*;
use crate::slug::{alphanumeric, lowered, slug_of};
use crate::text::{behind_last, decimal};

verus! {

/// Nothing but letters and digits.
pub open spec fn is_word(s: Seq<char>) -> bool {
    forall|i: int| 0 <= i < s.len() ==> alphanumeric(#[trigger] s[i])
}

/// Neither letters nor digits.
pub open spec fn is_gap(s: Seq<char>) -> bool {
    forall|i: int| 0 <= i < s.len() ==> !alphanumeric(#[trigger] s[i])
}

/// The slug of a word is the word in lower case.
pub proof fn a_word_is_its_slug(w: Seq<char>)
    requires
        is_word(w),
    ensures
        slug_of(w).len() == w.len(),
        forall|i: int| 0 <= i < w.len() ==> #[trigger] slug_of(w)[i] == lowered(w[i]),
    decreases w.len(),
{
    if w.len() > 0 {
        let before = w.drop_last();
        a_word_is_its_slug(before);
        assert(alphanumeric(w[w.len() - 1]));
        if before.len() > 0 {
            assert(before.last() == w[w.len() - 2]);
        }
        assert forall|i: int| 0 <= i < w.len() implies #[trigger] slug_of(w)[i] == lowered(w[i]) by {
            if i < before.len() {
                assert(slug_of(before)[i] == lowered(before[i]));
            }
        }
    }
}

/// What is no word leaves nothing behind at the end of a name.
pub proof fn a_gap_behind_is_dropped(a: Seq<char>, gap: Seq<char>)
    requires
        is_gap(gap),
    ensures
        slug_of(a + gap) == slug_of(a),
    decreases gap.len(),
{
    if gap.len() > 0 {
        a_gap_behind_is_dropped(a, gap.drop_last());
        assert((a + gap).drop_last() =~= a + gap.drop_last());
        assert((a + gap).last() == gap[gap.len() - 1]);
    } else {
        assert(a + gap =~= a);
    }
}

proof fn lemma_behind_a_gap(x: Seq<char>, b: Seq<char>)
    requires
        x.len() > 0,
        !alphanumeric(x.last()),
    ensures
        slug_of(x + b) == (if slug_of(b).len() == 0 {
            slug_of(x)
        } else if slug_of(x).len() == 0 {
            slug_of(b)
        } else {
            slug_of(x) + seq!['-'] + slug_of(b)
        }),
        b.len() > 0 && alphanumeric(b.last()) ==> slug_of(b).len() > 0,
    decreases b.len(),
{
    if b.len() == 0 {
        assert(x + b =~= x);
    } else {
        let before = b.drop_last();
        lemma_behind_a_gap(x, before);
        let all = x + b;
        assert(all.drop_last() =~= x + before);
        assert(all.last() == b.last());
        if before.len() > 0 {
            assert((x + before).last() == before.last());
        } else {
            assert(x + before =~= x);
        }
        assert(slug_of(all) =~= (if slug_of(b).len() == 0 {
            slug_of(x)
        } else if slug_of(x).len() == 0 {
            slug_of(b)
        } else {
            slug_of(x) + seq!['-'] + slug_of(b)
        }));
    }
}

/// What is no word becomes a single hyphen between two words, and nothing at either end of a name.
pub proof fn words_are_set_apart_by_one_hyphen(a: Seq<char>, gap: Seq<char>, b: Seq<char>)
    requires
        gap.len() > 0,
        is_gap(gap),
    ensures
        slug_of(a).len() > 0 && slug_of(b).len() > 0 ==> slug_of(a + gap + b) == slug_of(a) + seq!['-'] + slug_of(b),
        slug_of(a).len() == 0 ==> slug_of(a + gap + b) == slug_of(b),
        slug_of(b).len() == 0 ==> slug_of(a + gap + b) == slug_of(a),
{
    a_gap_behind_is_dropped(a, gap);
    assert((a + gap).last() == gap[gap.len() - 1]);
    lemma_behind_a_gap(a + gap, b);
}

/// A letter in lower case is the small letter of the same place in the alphabet.
pub proof fn lowering_keeps_the_letter(c: char)
    ensures
        'A' as int <= c as int <= 'Z' as int ==> lowered(c) as int - 'a' as int == c as int - 'A' as int,
        !('A' as int <= c as int <= 'Z' as int) ==> lowered(c) == c,
{
}

/// The value of a digit.
pub open spec fn digit_value(c: char) -> int {
    c as int - '0' as int
}

/// What some digits stand for, the highest first.
pub open spec fn value_of_digits(s: Seq<char>) -> int
    decreases s.len(),
{
    if s.len() == 0 {
        0
    } else {
        10 * value_of_digits(s.drop_last()) + digit_value(s.last())
    }
}

/// A whole number in decimal reads back as itself: nothing but digits, and no zero in front.
pub proof fn a_decimal_reads_back(n: nat)
    ensures
        value_of_digits(decimal(n)) == n,
        decimal(n).len() > 0,
        forall|i: int| 0 <= i < decimal(n).len() ==> 0 <= digit_value(#[trigger] decimal(n)[i]) <= 9,
        n > 0 ==> digit_value(decimal(n)[0]) > 0,
    decreases n,
{
    if n < 10 {
        let s = decimal(n);
        assert(s.drop_last() =~= Seq::<char>::empty());
        assert(value_of_digits(s.drop_last()) == 0);
    } else {
        a_decimal_reads_back(n / 10);
        let s = decimal(n);
        assert(s.drop_last() =~= decimal(n / 10));
        assert forall|i: int| 0 <= i < s.len() implies 0 <= digit_value(#[trigger] s[i]) <= 9 by {
            if i < decimal(n / 10).len() {
                assert(s[i] == decimal(n / 10)[i]);
            }
        }
    }
}

/// What stands behind the last of a character: nothing more of the character, and behind it all that
/// follows.
pub proof fn the_rest_stands_behind_the_last(front: Seq<char>, c: char, rest: Seq<char>)
    requires
        !rest.contains(c),
    ensures
        behind_last(front + seq![c] + rest, c) == rest,
        behind_last(rest, c) == rest,
    decreases rest.len(),
{
    let all = front + seq![c] + rest;
    if rest.len() == 0 {
        assert(all.last() == c);
        assert(behind_last(all, c) =~= rest);
        assert(behind_last(rest, c) =~= rest);
    } else {
        let before = rest.drop_last();
        assert(!before.contains(c)) by {
            if before.contains(c) {
                let i = choose|i: int| 0 <= i < before.len() && before[i] == c;
                assert(rest[i] == c);
            }
        }
        the_rest_stands_behind_the_last(front, c, before);
        assert(rest.last() != c) by {
            assert(rest.contains(rest[rest.len() - 1]));
        }
        assert(all.drop_last() =~= front + seq![c] + before);
        assert(all.last() == rest.last());
        assert(before.push(rest.last()) =~= rest);
    }
}

} // verus!
