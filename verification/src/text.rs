//! Strings: order, decimal text, and the pieces that names and keys are made of.

use vstd::prelude::*;

verus! {

/// `String::push` appends the character to the end of the string.
pub assume_specification[ String::push ](s: &mut String, c: char)
    ensures
        final(s)@ == old(s)@.push(c),
;

/// Lexicographic order by code points.
pub open spec fn precedes(a: Seq<char>, b: Seq<char>) -> bool
    decreases a.len(),
{
    if b.len() == 0 {
        false
    } else if a.len() == 0 {
        true
    } else if a[0] == b[0] {
        precedes(a.drop_first(), b.drop_first())
    } else {
        (a[0] as int) < (b[0] as int)
    }
}

/// `str`'s `<` is lexicographic order by code points.
#[verifier::external_body]
pub(crate) fn str_precedes(a: &str, b: &str) -> (r: bool)
    ensures
        r == precedes(a@, b@),
{
    a < b
}

/// `str`'s `==` compares the characters.
#[verifier::external_body]
pub(crate) fn str_same(a: &str, b: &str) -> (r: bool)
    ensures
        r == (a@ == b@),
{
    a == b
}

pub proof fn lemma_precedes_irreflexive(a: Seq<char>)
    ensures
        !precedes(a, a),
    decreases a.len(),
{
    if a.len() > 0 {
        lemma_precedes_irreflexive(a.drop_first());
    }
}

pub proof fn lemma_precedes_transitive(a: Seq<char>, b: Seq<char>, c: Seq<char>)
    requires
        precedes(a, b),
        precedes(b, c),
    ensures
        precedes(a, c),
    decreases a.len(),
{
    if a.len() > 0 && b.len() > 0 && c.len() > 0 && a[0] == b[0] && b[0] == c[0] {
        lemma_precedes_transitive(a.drop_first(), b.drop_first(), c.drop_first());
    }
}

pub proof fn lemma_precedes_total(a: Seq<char>, b: Seq<char>)
    ensures
        precedes(a, b) || precedes(b, a) || a == b,
    decreases a.len(),
{
    if a.len() > 0 && b.len() > 0 {
        if a[0] == b[0] {
            lemma_precedes_total(a.drop_first(), b.drop_first());
            if a.drop_first() == b.drop_first() {
                assert(a =~= seq![a[0]] + a.drop_first());
                assert(b =~= seq![b[0]] + b.drop_first());
            }
        }
    } else if a.len() == 0 && b.len() == 0 {
        assert(a =~= b);
    }
}

/// The decimal digit of a number below ten.
pub open spec fn digit(d: int) -> char {
    (48 + d) as char
}

/// A whole number in decimal.
pub open spec fn decimal(n: nat) -> Seq<char>
    decreases n,
{
    if n < 10 {
        seq![digit(n as int)]
    } else {
        decimal(n / 10).push(digit((n % 10) as int))
    }
}

/// Appends a whole number in decimal.
pub fn push_decimal(out: &mut String, n: u64)
    ensures
        final(out)@ == old(out)@ + decimal(n as nat),
    decreases n,
{
    let d: u8 = (n % 10) as u8;
    if n >= 10 {
        push_decimal(out, n / 10);
    }
    out.push((48 + d) as char);
    assert(out@ =~= old(out)@ + decimal(n as nat));
}

/// A whole number in decimal.
pub fn decimal_text(n: u64) -> (r: String)
    ensures
        r@ == decimal(n as nat),
{
    let mut out = String::new();
    push_decimal(&mut out, n);
    assert(out@ =~= decimal(n as nat));
    out
}

/// `s` with `c` put in front until it has `width` characters.
pub open spec fn padded(s: Seq<char>, width: nat, c: char) -> Seq<char> {
    if s.len() < width {
        Seq::new((width - s.len()) as nat, |i: int| c) + s
    } else {
        s
    }
}

/// A whole number in decimal, filled from the left to a least width.
pub fn padded_decimal(n: u64, width: u8, c: char) -> (r: String)
    ensures
        r@ == padded(decimal(n as nat), width as nat, c),
{
    let number = decimal_text(n);
    let len: usize = number.as_str().unicode_len();
    let mut out = String::new();
    let mut i: usize = len;
    while i < width as usize
        invariant
            len == decimal(n as nat).len(),
            len <= i,
            i > len ==> i <= width,
            out@ == Seq::new((i - len) as nat, |j: int| c),
        decreases width as usize - i,
    {
        out.push(c);
        i = i + 1;
        assert(out@ =~= Seq::new((i - len) as nat, |j: int| c));
    }
    out.append(number.as_str());
    assert(out@ =~= padded(decimal(n as nat), width as nat, c));
    out
}

/// The characters of a string.
pub fn chars_of(s: &str) -> (r: Vec<char>)
    ensures
        r@ == s@,
{
    let mut out: Vec<char> = Vec::new();
    for c in it: s.chars()
        invariant
            out@ == it.seq().take(it.index() as int),
            it.seq() == s@,
    {
        out.push(c);
        assert(out@ =~= it.seq().take(it.index() as int + 1));
    }
    assert(out@ =~= s@);
    out
}

/// Whether `s` starts with `prefix`.
pub open spec fn begins(s: Seq<char>, prefix: Seq<char>) -> bool {
    prefix.len() <= s.len() && s.take(prefix.len() as int) == prefix
}

/// Whether `s` starts with `prefix`.
pub fn starts_with(s: &str, prefix: &str) -> (r: bool)
    ensures
        r == begins(s@, prefix@),
{
    let a = chars_of(s);
    let b = chars_of(prefix);
    if b.len() > a.len() {
        return false;
    }
    let mut i: usize = 0;
    while i < b.len()
        invariant
            i <= b@.len() <= a@.len(),
            a@ == s@,
            b@ == prefix@,
            forall|j: int| 0 <= j < i ==> a@[j] == b@[j],
        decreases b@.len() - i,
    {
        if a[i] != b[i] {
            assert(s@.take(prefix@.len() as int)[i as int] != prefix@[i as int]);
            return false;
        }
        i = i + 1;
    }
    assert(s@.take(prefix@.len() as int) =~= prefix@);
    true
}

/// What stands behind the last `c`, or all of it where there is none.
pub open spec fn behind_last(s: Seq<char>, c: char) -> Seq<char>
    decreases s.len(),
{
    if s.len() == 0 || s.last() == c {
        Seq::empty()
    } else {
        behind_last(s.drop_last(), c).push(s.last())
    }
}

/// What stands behind the last `c`, or all of it where there is none.
pub fn after_last(s: &str, c: char) -> (r: String)
    ensures
        r@ == behind_last(s@, c),
{
    let chars = chars_of(s);
    let n: usize = chars.len();
    let mut i: usize = n;
    assert(s@.take(n as int) =~= s@);
    assert(behind_last(s@, c) + s@.skip(n as int) =~= behind_last(s@, c));
    while i > 0 && chars[i - 1] != c
        invariant
            i <= n == chars@.len(),
            chars@ == s@,
            behind_last(s@, c) == behind_last(s@.take(i as int), c) + s@.skip(i as int),
        decreases i,
    {
        proof {
            let t = s@.take(i as int);
            assert(t.drop_last() =~= s@.take(i - 1));
            assert(behind_last(s@.take(i - 1), c).push(s@[i - 1]) + s@.skip(i as int) =~= behind_last(s@.take(i - 1), c)
                + s@.skip(i - 1));
        }
        i = i - 1;
    }
    let mut out = String::new();
    let mut j: usize = i;
    while j < n
        invariant
            i <= j <= n == chars@.len(),
            chars@ == s@,
            out@ == s@.subrange(i as int, j as int),
        decreases n - j,
    {
        out.push(chars[j]);
        j = j + 1;
        assert(out@ =~= s@.subrange(i as int, j as int));
    }
    proof {
        assert(behind_last(s@.take(i as int), c) =~= Seq::<char>::empty());
        assert(out@ =~= s@.skip(i as int));
        assert(behind_last(s@, c) =~= out@);
    }
    out
}

/// Strings one behind the other, set apart by `sep`.
pub open spec fn joined_text(parts: Seq<Seq<char>>, sep: Seq<char>) -> Seq<char>
    decreases parts.len(),
{
    if parts.len() == 0 {
        Seq::empty()
    } else if parts.len() == 1 {
        parts[0]
    } else {
        joined_text(parts.drop_last(), sep) + sep + parts.last()
    }
}

/// Strings one behind the other, set apart by `sep`.
pub fn join_text(parts: &Vec<String>, sep: &str) -> (r: String)
    ensures
        r@ == joined_text(parts.deep_view(), sep@),
{
    let ghost models = parts.deep_view();
    let mut out = String::new();
    let mut i: usize = 0;
    while i < parts.len()
        invariant
            i <= parts@.len(),
            models == parts.deep_view(),
            out@ == joined_text(models.take(i as int), sep@),
        decreases parts@.len() - i,
    {
        if i > 0 {
            out.append(sep);
        }
        out.append(parts[i].as_str());
        proof {
            let next = models.take(i + 1);
            assert(next.drop_last() =~= models.take(i as int));
            assert(next.last() == parts@[i as int]@);
            if i == 0 {
                assert(out@ =~= joined_text(next, sep@));
            }
        }
        i = i + 1;
    }
    assert(models.take(i as int) =~= models);
    out
}

/// `s` with blanks put behind it until it has `width` characters.
pub open spec fn filled(s: Seq<char>, width: nat) -> Seq<char> {
    if s.len() < width {
        s + Seq::new((width - s.len()) as nat, |i: int| ' ')
    } else {
        s
    }
}

/// `s` with blanks put behind it until it has `width` characters.
pub fn filled_text(s: &str, width: u8) -> (r: String)
    ensures
        r@ == filled(s@, width as nat),
{
    let len: usize = s.unicode_len();
    let mut out = s.to_owned();
    let mut i: usize = len;
    assert(out@ =~= s@ + Seq::new(0, |j: int| ' '));
    while i < width as usize
        invariant
            len == s@.len(),
            len <= i,
            i > len ==> i <= width,
            out@ == s@ + Seq::new((i - len) as nat, |j: int| ' '),
        decreases width as usize - i,
    {
        out.push(' ');
        i = i + 1;
        assert(out@ =~= s@ + Seq::new((i - len) as nat, |j: int| ' '));
    }
    assert(out@ =~= filled(s@, width as nat));
    out
}

// What `str`'s `Debug` writes.
pub uninterp spec fn quoted(s: Seq<char>) -> Seq<char>;

/// The `{:?}` text of a string: its characters escaped and put in double quotes, as
/// `str`'s `Debug` writes them. The escapes themselves are left to the standard library.
#[verifier::external_body]
pub(crate) fn debug_text(s: &str) -> (r: String)
    ensures
        r@ == quoted(s@),
{
    format!("{s:?}")
}

} // verus!
