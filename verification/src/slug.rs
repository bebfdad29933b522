//! Names fit for files: words of lower-case letters and digits, set apart by hyphens.

use vstd::prelude::*;
use crate::text::chars_of;

verus! {

/// An ASCII letter or digit.
pub open spec fn alphanumeric(c: char) -> bool {
    ('0' as int <= c as int <= '9' as int) || ('A' as int <= c as int <= 'Z' as int) || ('a' as int <= c as int
        <= 'z' as int)
}

/// An ASCII letter in lower case.
pub open spec fn lowered(c: char) -> char {
    if 'A' as int <= c as int <= 'Z' as int {
        (c as int + 32) as char
    } else {
        c
    }
}

/// The words of a name in lower case, one hyphen between two of them: a word is a stretch of
/// ASCII letters and digits.
pub open spec fn slug_of(s: Seq<char>) -> Seq<char>
    decreases s.len(),
{
    if s.len() == 0 {
        Seq::empty()
    } else {
        let before = s.drop_last();
        let out = slug_of(before);
        if !alphanumeric(s.last()) {
            out
        } else if out.len() > 0 && !alphanumeric(before.last()) {
            out.push('-').push(lowered(s.last()))
        } else {
            out.push(lowered(s.last()))
        }
    }
}

fn is_alphanumeric(c: char) -> (r: bool)
    ensures
        r == alphanumeric(c),
{
    let n: u32 = c as u32;
    (48 <= n && n <= 57) || (65 <= n && n <= 90) || (97 <= n && n <= 122)
}

fn lower(c: char) -> (r: char)
    ensures
        r == lowered(c),
{
    let n: u32 = c as u32;
    if 65 <= n && n <= 90 {
        let low: u8 = (n + 32) as u8;
        low as char
    } else {
        c
    }
}

pub fn slug(name: &str) -> (r: String)
    ensures
        r@ == slug_of(name@),
{
    let chars = chars_of(name);
    let mut out = String::new();
    let mut empty: bool = true;
    let mut gap: bool = false;
    let mut i: usize = 0;
    assert(chars@.take(0) =~= Seq::<char>::empty());
    while i < chars.len()
        invariant
            i <= chars@.len(),
            chars@ == name@,
            out@ == slug_of(chars@.take(i as int)),
            empty == (out@.len() == 0),
            i > 0 ==> gap == !alphanumeric(chars@[i - 1]),
            i == 0 ==> empty,
        decreases chars@.len() - i,
    {
        let c = chars[i];
        proof {
            assert(chars@.take(i + 1).drop_last() =~= chars@.take(i as int));
            assert(chars@.take(i + 1).last() == c);
            if i > 0 {
                assert(chars@.take(i as int).last() == chars@[i - 1]);
            }
        }
        if is_alphanumeric(c) {
            if !empty && gap {
                out.push('-');
            }
            out.push(lower(c));
            empty = false;
            gap = false;
        } else {
            gap = true;
        }
        i = i + 1;
    }
    assert(chars@.take(i as int) =~= name@);
    out
}

/// Lower-case letters, digits and hyphens, no hyphen in front or behind another.
pub open spec fn hyphenated(t: Seq<char>) -> bool {
    forall|i: int|
        0 <= i < t.len() ==> {
            ||| (alphanumeric(#[trigger] t[i]) && lowered(t[i]) == t[i])
            ||| (t[i] == '-' && i > 0 && t[i - 1] != '-')
        }
}

/// A slug holds lower-case letters, digits and single hyphens, and begins and ends with a letter
/// or digit.
pub proof fn slug_is_tidy(s: Seq<char>)
    ensures
        hyphenated(slug_of(s)),
        slug_of(s).len() > 0 ==> slug_of(s).last() != '-',
    decreases s.len(),
{
    if s.len() > 0 {
        slug_is_tidy(s.drop_last());
    }
}

proof fn slug_of_hyphenated(t: Seq<char>)
    requires
        hyphenated(t),
    ensures
        slug_of(t) == (if t.len() > 0 && t.last() == '-' {
            t.drop_last()
        } else {
            t
        }),
    decreases t.len(),
{
    if t.len() > 0 {
        let before = t.drop_last();
        assert(hyphenated(before)) by {
            assert forall|i: int| 0 <= i < before.len() implies {
                ||| (alphanumeric(#[trigger] before[i]) && lowered(before[i]) == before[i])
                ||| (before[i] == '-' && i > 0 && before[i - 1] != '-')
            } by {
                assert(t[i] == before[i]);
                if i > 0 {
                    assert(t[i - 1] == before[i - 1]);
                }
            }
        }
        slug_of_hyphenated(before);
        let c = t[t.len() - 1];
        if c == '-' {
            assert(t[t.len() - 2] != '-');
            assert(slug_of(t) =~= before);
        } else if before.len() > 0 {
            assert(before.last() == t[t.len() - 2]);
            if before.last() == '-' {
                assert(before.len() > 1);
                assert(slug_of(t) =~= t);
            } else {
                assert(slug_of(t) =~= t);
            }
        } else {
            assert(slug_of(t) =~= t);
        }
    }
}

/// The slug of a slug is that slug.
pub proof fn slug_of_a_slug(s: Seq<char>)
    ensures
        slug_of(slug_of(s)) == slug_of(s),
{
    slug_is_tidy(s);
    slug_of_hyphenated(slug_of(s));
}

} // verus!
