//! The rows of a breakdown: one text for each label set.
//!
//! A label set is shown as its `name=value` pairs, set apart by blanks. Two label sets can look alike
//! that way, as the value `1 b=2` of `a` looks like the value `1` of `a` and the value `2` of `b`. Such
//! a text belongs to the label set that it reads as, and the others are shown in a coded form, which
//! has no equals sign.

use vstd::prelude::*;
use crate::protocol::{join_labels, joined_labels, Labels, LabelsModel};
use crate::text::{chars_of, join_text, joined_text, precedes, str_precedes};

verus! {

/// How many characters stand before the first blank or equals sign.
pub open spec fn word_len(s: Seq<char>) -> nat
    decreases s.len(),
{
    if s.len() == 0 || s[0] == ' ' || s[0] == '=' {
        0
    } else {
        1 + word_len(s.drop_first())
    }
}

/// What stands behind a blank reads as a further pair: a word and an equals sign, where the word may
/// follow `name` in the order of names.
pub open spec fn begins_pair(s: Seq<char>, name: Seq<char>) -> bool {
    &&& word_len(s) < s.len()
    &&& s[word_len(s) as int] == '='
    &&& precedes(name, s.take(word_len(s) as int))
}

/// Nothing in a value reads as a further pair.
pub open spec fn reads_as_value(value: Seq<char>, name: Seq<char>) -> bool {
    forall|i: int| 0 <= i < value.len() && #[trigger] value[i] == ' ' ==> !begins_pair(value.skip(i + 1), name)
}

/// The pairs of a label set, set apart by blanks, read as that label set.
pub open spec fn reads_back(labels: LabelsModel) -> bool {
    &&& labels.len() > 0 ==> !labels[0].0.contains('=')
    &&& forall|i: int|
        0 < i < labels.len() ==> !(#[trigger] labels[i]).0.contains('=') && !labels[i].0.contains(' ')
    &&& forall|i: int| 0 <= i < labels.len() ==> reads_as_value((#[trigger] labels[i]).1, labels[i].0)
}

/// A name or value in the coded form.
pub open spec fn coded(s: Seq<char>) -> Seq<char>
    decreases s.len(),
{
    if s.len() == 0 {
        Seq::empty()
    } else {
        code_of(s[0]) + coded(s.drop_first())
    }
}

/// A character in the coded form: blanks, equals signs, colons and percent signs by their numbers.
pub open spec fn code_of(c: char) -> Seq<char> {
    if c == ' ' {
        seq!['%', '2', '0']
    } else if c == '=' {
        seq!['%', '3', 'D']
    } else if c == ':' {
        seq!['%', '3', 'A']
    } else if c == '%' {
        seq!['%', '2', '5']
    } else {
        seq![c]
    }
}

pub open spec fn coded_pairs(labels: LabelsModel) -> Seq<Seq<char>> {
    Seq::new(labels.len(), |i: int| coded(labels[i].0) + ":"@ + coded(labels[i].1))
}

/// The row of a label set: its pairs as they are where they read back, and coded where they do not.
pub open spec fn row_key(labels: LabelsModel) -> Seq<char> {
    if reads_back(labels) {
        joined_labels(labels, " "@)
    } else {
        joined_text(coded_pairs(labels), " "@)
    }
}

fn holds_char(s: &Vec<char>, c: char) -> (r: bool)
    ensures
        r == s@.contains(c),
{
    let mut i: usize = 0;
    while i < s.len()
        invariant
            i <= s@.len(),
            forall|j: int| 0 <= j < i ==> s@[j] != c,
        decreases s@.len() - i,
    {
        if s[i] == c {
            assert(s@[i as int] == c);
            return true;
        }
        i = i + 1;
    }
    false
}

/// Whether the characters from `from` on read as a further pair.
fn pair_begins(s: &Vec<char>, from: usize, name: &str) -> (r: bool)
    requires
        from <= s@.len(),
    ensures
        r == begins_pair(s@.skip(from as int), name@),
{
    let ghost rest = s@.skip(from as int);
    let mut word = String::new();
    let mut i: usize = from;
    assert(rest.skip(0) =~= rest);
    while i < s.len() && s[i] != ' ' && s[i] != '='
        invariant
            from <= i <= s@.len(),
            rest == s@.skip(from as int),
            word@ == rest.take(i - from),
            word_len(rest) == (i - from) + word_len(rest.skip(i - from)),
        decreases s@.len() - i,
    {
        word.push(s[i]);
        proof {
            assert(rest.take(i - from + 1) =~= rest.take(i - from).push(s@[i as int]));
            assert(rest.skip(i - from).drop_first() =~= rest.skip(i - from + 1));
            assert(rest.skip(i - from)[0] == s@[i as int]);
        }
        i = i + 1;
    }
    proof {
        if i < s@.len() {
            assert(rest.skip(i - from)[0] == s@[i as int]);
        }
    }
    i < s.len() && s[i] == '=' && str_precedes(name, word.as_str())
}

fn value_reads(value: &str, name: &str) -> (r: bool)
    ensures
        r == reads_as_value(value@, name@),
{
    let chars = chars_of(value);
    let mut i: usize = 0;
    while i < chars.len()
        invariant
            i <= chars@.len(),
            chars@ == value@,
            forall|j: int| 0 <= j < i && #[trigger] value@[j] == ' ' ==> !begins_pair(value@.skip(j + 1), name@),
        decreases chars@.len() - i,
    {
        if chars[i] == ' ' && pair_begins(&chars, i + 1, name) {
            assert(value@[i as int] == ' ');
            return false;
        }
        i = i + 1;
    }
    true
}

/// Whether the pairs of a label set, set apart by blanks, read as that label set.
pub fn is_read_back(labels: &Labels) -> (r: bool)
    ensures
        r == reads_back(labels@),
{
    let mut i: usize = 0;
    while i < labels.len()
        invariant
            i <= labels@.len(),
            i > 0 ==> !labels@[0].0.contains('='),
            forall|j: int| 0 < j < i ==> !(#[trigger] labels@[j]).0.contains('=') && !labels@[j].0.contains(' '),
            forall|j: int| 0 <= j < i ==> reads_as_value((#[trigger] labels@[j]).1, labels@[j].0),
        decreases labels@.len() - i,
    {
        let name = chars_of(labels.key(i).as_str());
        if holds_char(&name, '=') || (i > 0 && holds_char(&name, ' ')) {
            assert(labels@[i as int].0 == name@);
            return false;
        }
        if !value_reads(labels.value(i).as_str(), labels.key(i).as_str()) {
            assert(!reads_as_value(labels@[i as int].1, labels@[i as int].0));
            return false;
        }
        i = i + 1;
    }
    true
}

/// Appends a name or value in the coded form.
fn push_coded(out: &mut String, s: &str)
    ensures
        final(out)@ == old(out)@ + coded(s@),
{
    let chars = chars_of(s);
    let mut i: usize = 0;
    assert(chars@.skip(0) =~= s@);
    while i < chars.len()
        invariant
            i <= chars@.len(),
            chars@ == s@,
            out@ + coded(chars@.skip(i as int)) == old(out)@ + coded(s@),
        decreases chars@.len() - i,
    {
        let ghost before = out@;
        let ghost rest = chars@.skip(i as int);
        let c = chars[i];
        proof {
            reveal_strlit("%20");
            reveal_strlit("%3D");
            reveal_strlit("%3A");
            reveal_strlit("%25");
            assert(rest[0] == c);
            assert(rest.drop_first() =~= chars@.skip(i + 1));
        }
        if c == ' ' {
            out.append("%20");
        } else if c == '=' {
            out.append("%3D");
        } else if c == ':' {
            out.append("%3A");
        } else if c == '%' {
            out.append("%25");
        } else {
            out.push(c);
        }
        assert(out@ =~= before + code_of(c));
        assert(before + (code_of(c) + coded(chars@.skip(i + 1))) =~= out@ + coded(chars@.skip(i + 1)));
        i = i + 1;
    }
    assert(coded(chars@.skip(i as int)) =~= Seq::<char>::empty());
    assert(out@ =~= old(out)@ + coded(s@));
}

/// The row of a label set.
pub fn row_of(labels: &Labels) -> (r: String)
    ensures
        r@ == row_key(labels@),
{
    if is_read_back(labels) {
        return join_labels(labels, " ");
    }
    let mut pairs: Vec<String> = Vec::new();
    let mut i: usize = 0;
    while i < labels.len()
        invariant
            i <= labels@.len(),
            pairs@.len() == i,
            forall|j: int| 0 <= j < i ==> (#[trigger] pairs@[j])@ == coded_pairs(labels@)[j],
        decreases labels@.len() - i,
    {
        let mut pair = String::new();
        push_coded(&mut pair, labels.key(i).as_str());
        pair.append(":");
        push_coded(&mut pair, labels.value(i).as_str());
        assert(pair@ =~= coded_pairs(labels@)[i as int]);
        pairs.push(pair);
        i = i + 1;
    }
    assert(pairs.deep_view() =~= coded_pairs(labels@));
    join_text(&pairs, " ")
}

} // verus!
