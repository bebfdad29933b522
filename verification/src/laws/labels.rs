//! Labels: one breakdown row for each distinct label set.

use vstd::prelude::*;
use crate::protocol::{joined_labels, label_key_spec, LabelsModel};
use crate::rows::{begins_pair, code_of, coded, coded_pairs, reads_as_value, reads_back, row_key, word_len};
use crate::sorted::in_order;
use crate::text::{joined_text, lemma_precedes_transitive, precedes};

verus! {

/// What stands behind the first pair.
spec fn behind_first(pairs: LabelsModel) -> Seq<char> {
    if pairs.len() <= 1 {
        Seq::empty()
    } else {
        " "@ + joined_labels(pairs.drop_first(), " "@)
    }
}

/// Joined pairs are the first pair and what stands behind it.
proof fn lemma_front(pairs: LabelsModel)
    requires
        pairs.len() > 0,
    ensures
        joined_labels(pairs, " "@) == pairs[0].0 + ("="@ + (pairs[0].1 + behind_first(pairs))),
    decreases pairs.len(),
{
    let first = pairs[0].0 + "="@ + pairs[0].1;
    if pairs.len() == 1 {
        assert(first =~= pairs[0].0 + ("="@ + (pairs[0].1 + behind_first(pairs))));
    } else {
        let init = pairs.drop_last();
        let last = pairs.last().0 + "="@ + pairs.last().1;
        let rest = pairs.drop_first();
        lemma_front(init);
        assert(init[0] == pairs[0]);
        assert(rest.last() == pairs.last());
        if pairs.len() == 2 {
            assert(rest.len() == 1 && rest[0] == pairs.last());
            assert(joined_labels(rest, " "@) =~= last);
            assert(behind_first(init) =~= Seq::<char>::empty());
        } else {
            assert(rest.drop_last() =~= init.drop_first());
            assert(joined_labels(rest, " "@) =~= joined_labels(init.drop_first(), " "@) + " "@ + last);
        }
        assert(behind_first(pairs) =~= behind_first(init) + " "@ + last);
        assert(joined_labels(pairs, " "@) =~= pairs[0].0 + ("="@ + (pairs[0].1 + behind_first(pairs))));
    }
}

/// A word ends with the first character of `x` at the latest.
proof fn lemma_word(s: Seq<char>, x: Seq<char>)
    requires
        x.len() == 0 || x[0] == ' ' || x[0] == '=',
    ensures
        word_len(s) <= s.len(),
        word_len(s + x) == word_len(s),
        forall|i: int| 0 <= i < word_len(s) ==> s[i] != ' ' && s[i] != '=',
        word_len(s) < s.len() ==> s[word_len(s) as int] == ' ' || s[word_len(s) as int] == '=',
    decreases s.len(),
{
    if s.len() == 0 {
        assert(s + x =~= x);
    } else if s[0] != ' ' && s[0] != '=' {
        let rest = s.drop_first();
        lemma_word(rest, x);
        assert((s + x).drop_first() =~= rest + x);
        assert forall|i: int| 0 <= i < word_len(s) implies s[i] != ' ' && s[i] != '=' by {
            if i > 0 {
                assert(s[i] == rest[i - 1]);
            }
        }
        if word_len(s) < s.len() {
            assert(s[word_len(s) as int] == rest[word_len(rest) as int]);
        }
    } else {
        assert((s + x)[0] == s[0]);
    }
}

/// Whether a further pair begins does not depend on what stands behind the next blank.
proof fn lemma_pair_begins_within(s: Seq<char>, x: Seq<char>, name: Seq<char>)
    requires
        x.len() == 0 || x[0] == ' ',
    ensures
        begins_pair(s + x, name) == begins_pair(s, name),
{
    lemma_word(s, x);
    let n = word_len(s) as int;
    if n < s.len() {
        assert((s + x)[n] == s[n]);
        assert((s + x).take(n) =~= s.take(n));
    } else if x.len() > 0 {
        assert((s + x)[n] == ' ');
    }
}

/// A name without blanks and equals signs, and an equals sign, begin a pair.
proof fn lemma_name_begins_pair(next: Seq<char>, x: Seq<char>, name: Seq<char>)
    requires
        !next.contains(' '),
        !next.contains('='),
        precedes(name, next),
    ensures
        begins_pair(next + ("="@ + x), name),
{
    reveal_strlit("=");
    let y = "="@ + x;
    lemma_word(next, y);
    let n = word_len(next) as int;
    if n < next.len() {
        assert(next.contains(next[n]));
    }
    assert((next + y)[n] == '=');
    assert((next + y).take(n) =~= next);
}

/// What stands before the first equals sign can be told from the rest.
proof fn lemma_before_equals(a: Seq<char>, x: Seq<char>, b: Seq<char>, y: Seq<char>)
    requires
        !a.contains('='),
        !b.contains('='),
        a + ("="@ + x) == b + ("="@ + y),
    ensures
        a == b,
        x == y,
{
    reveal_strlit("=");
    let p = a + ("="@ + x);
    let q = b + ("="@ + y);
    if a.len() < b.len() {
        assert(p[a.len() as int] == '=');
        assert(q[a.len() as int] == b[a.len() as int]);
        assert(b.contains(b[a.len() as int]));
    }
    if b.len() < a.len() {
        assert(q[b.len() as int] == '=');
        assert(p[b.len() as int] == a[b.len() as int]);
        assert(a.contains(a[b.len() as int]));
    }
    assert(a =~= p.take(a.len() as int));
    assert(b =~= q.take(b.len() as int));
    assert(x =~= p.skip(a.len() as int + 1));
    assert(y =~= q.skip(b.len() as int + 1));
}

proof fn lemma_tail(pairs: LabelsModel)
    requires
        pairs.len() > 1,
        reads_back(pairs),
        in_order(pairs),
    ensures
        reads_back(pairs.drop_first()),
        in_order(pairs.drop_first()),
        precedes(pairs[0].0, pairs[1].0),
{
    let rest = pairs.drop_first();
    assert(rest[0] == pairs[1]);
    assert forall|i: int| 0 < i < rest.len() implies !(#[trigger] rest[i]).0.contains('=') && !rest[i].0.contains(
        ' ',
    ) by {
        assert(rest[i] == pairs[i + 1]);
    }
    assert forall|i: int| 0 <= i < rest.len() implies reads_as_value((#[trigger] rest[i]).1, rest[i].0) by {
        assert(rest[i] == pairs[i + 1]);
    }
    assert forall|i: int, j: int| 0 <= i < j < rest.len() implies precedes(
        #[trigger] rest[i].0,
        #[trigger] rest[j].0,
    ) by {
        assert(precedes(pairs[i + 1].0, pairs[j + 1].0));
    }
    assert(precedes(pairs[0].0, pairs[1].0));
}

/// Of two values behind which the text is the same, the first does not end earlier.
proof fn lemma_value_end(a: LabelsModel, b: LabelsModel)
    requires
        a.len() > 0,
        b.len() > 0,
        reads_back(a),
        reads_back(b),
        in_order(a),
        a[0].0 == b[0].0,
        a[0].1 + behind_first(a) == b[0].1 + behind_first(b),
    ensures
        a[0].1.len() >= b[0].1.len(),
{
    reveal_strlit(" ");
    let name = a[0].0;
    let v = a[0].1;
    let w = b[0].1;
    let text = v + behind_first(a);
    let text2 = w + behind_first(b);
    if v.len() < w.len() {
        let i = v.len() as int;
        assert(text.len() >= w.len());
        assert(a.len() > 1);
        let rest = a.drop_first();
        assert(text[i] == ' ');
        assert(text2[i] == w[i]);
        assert(text.skip(i + 1) =~= joined_labels(rest, " "@));
        lemma_tail(a);
        lemma_front(rest);
        assert(rest[0] == a[1]);
        lemma_name_begins_pair(rest[0].0, rest[0].1 + behind_first(rest), name);
        assert(begins_pair(text.skip(i + 1), name));
        assert(text2.skip(i + 1) =~= w.skip(i + 1) + behind_first(b));
        lemma_pair_begins_within(w.skip(i + 1), behind_first(b), name);
        assert(reads_as_value(b[0].1, b[0].0));
    }
}

/// Label sets that read back can be told by their text.
proof fn lemma_read_back(a: LabelsModel, b: LabelsModel)
    requires
        a.len() > 0,
        b.len() > 0,
        reads_back(a),
        reads_back(b),
        in_order(a),
        in_order(b),
        joined_labels(a, " "@) == joined_labels(b, " "@),
    ensures
        a == b,
    decreases a.len(),
{
    reveal_strlit(" ");
    lemma_front(a);
    lemma_front(b);
    let x = behind_first(a);
    let y = behind_first(b);
    lemma_before_equals(a[0].0, a[0].1 + x, b[0].0, b[0].1 + y);
    lemma_value_end(a, b);
    lemma_value_end(b, a);
    let n = a[0].1.len() as int;
    assert(a[0].1 =~= (a[0].1 + x).take(n));
    assert(b[0].1 =~= (b[0].1 + y).take(n));
    assert(x =~= (a[0].1 + x).skip(n));
    assert(y =~= (b[0].1 + y).skip(n));
    if a.len() > 1 {
        assert(b.len() > 1);
        assert(x.skip(1) =~= joined_labels(a.drop_first(), " "@));
        assert(y.skip(1) =~= joined_labels(b.drop_first(), " "@));
        lemma_tail(a);
        lemma_tail(b);
        lemma_read_back(a.drop_first(), b.drop_first());
        assert(a =~= seq![a[0]] + a.drop_first());
        assert(b =~= seq![b[0]] + b.drop_first());
    } else {
        assert(b.len() == 1);
        assert(a =~= seq![a[0]]);
        assert(b =~= seq![b[0]]);
    }
}

/// Nothing, or something that starts with a blank or a colon.
spec fn bare(s: Seq<char>) -> bool {
    s.len() == 0 || s[0] == ' ' || s[0] == ':'
}

/// A coded name or value can be told from what follows it.
proof fn lemma_coded(a: Seq<char>, x: Seq<char>, b: Seq<char>, y: Seq<char>)
    requires
        bare(x),
        bare(y),
        coded(a) + x == coded(b) + y,
    ensures
        a == b,
        x == y,
    decreases a.len(),
{
    let p = coded(a) + x;
    let q = coded(b) + y;
    if a.len() == 0 {
        assert(p =~= x);
        if b.len() > 0 {
            assert(q[0] == code_of(b[0])[0]);
        }
        assert(b.len() == 0);
        assert(q =~= y);
        assert(a =~= b);
    } else if b.len() == 0 {
        assert(q =~= y);
        assert(p[0] == code_of(a[0])[0]);
    } else {
        let a1 = a.drop_first();
        let b1 = b.drop_first();
        let m = code_of(a[0]).len() as int;
        let n = code_of(b[0]).len() as int;
        assert(p =~= code_of(a[0]) + (coded(a1) + x));
        assert(q =~= code_of(b[0]) + (coded(b1) + y));
        assert(p[0] == code_of(a[0])[0] && q[0] == code_of(b[0])[0]);
        if m == 3 {
            assert(n == 3);
            assert(p[1] == code_of(a[0])[1] && q[1] == code_of(b[0])[1]);
            assert(p[2] == code_of(a[0])[2] && q[2] == code_of(b[0])[2]);
        } else {
            assert(n == 1);
        }
        assert(a[0] == b[0]);
        assert(p.skip(m) =~= coded(a1) + x);
        assert(q.skip(m) =~= coded(b1) + y);
        lemma_coded(a1, x, b1, y);
        assert(a =~= seq![a[0]] + a1);
        assert(b =~= seq![b[0]] + b1);
    }
}

/// What stands behind the first part.
spec fn behind(parts: Seq<Seq<char>>) -> Seq<char> {
    if parts.len() <= 1 {
        Seq::empty()
    } else {
        " "@ + joined_text(parts.drop_first(), " "@)
    }
}

proof fn lemma_joined_front(parts: Seq<Seq<char>>)
    requires
        parts.len() > 0,
    ensures
        joined_text(parts, " "@) == parts[0] + behind(parts),
    decreases parts.len(),
{
    if parts.len() == 1 {
        assert(parts[0] + behind(parts) =~= parts[0]);
    } else {
        let init = parts.drop_last();
        let rest = parts.drop_first();
        lemma_joined_front(init);
        assert(rest.last() == parts.last());
        if parts.len() == 2 {
            assert(rest.len() == 1 && rest[0] == parts.last());
            assert(behind(init) =~= Seq::<char>::empty());
            assert(init.len() == 1);
        } else {
            assert(rest.drop_last() =~= init.drop_first());
        }
        assert(joined_text(parts, " "@) =~= parts[0] + behind(parts));
    }
}

/// Label sets can be told by their coded text.
proof fn lemma_coded_rows(a: LabelsModel, b: LabelsModel)
    requires
        a.len() > 0,
        b.len() > 0,
        joined_text(coded_pairs(a), " "@) == joined_text(coded_pairs(b), " "@),
    ensures
        a == b,
    decreases a.len(),
{
    reveal_strlit(" ");
    reveal_strlit(":");
    let p = coded_pairs(a);
    let q = coded_pairs(b);
    lemma_joined_front(p);
    lemma_joined_front(q);
    let x = behind(p);
    let y = behind(q);
    let v = coded(a[0].1) + x;
    let w = coded(b[0].1) + y;
    assert(p[0] + x =~= coded(a[0].0) + (":"@ + v));
    assert(q[0] + y =~= coded(b[0].0) + (":"@ + w));
    lemma_coded(a[0].0, ":"@ + v, b[0].0, ":"@ + w);
    assert((":"@ + v).skip(1) =~= v);
    assert((":"@ + w).skip(1) =~= w);
    lemma_coded(a[0].1, x, b[0].1, y);
    if a.len() > 1 {
        assert(b.len() > 1);
        assert(x.skip(1) =~= joined_text(p.drop_first(), " "@));
        assert(y.skip(1) =~= joined_text(q.drop_first(), " "@));
        assert(p.drop_first() =~= coded_pairs(a.drop_first()));
        assert(q.drop_first() =~= coded_pairs(b.drop_first()));
        lemma_coded_rows(a.drop_first(), b.drop_first());
        assert(a =~= seq![a[0]] + a.drop_first());
        assert(b =~= seq![b[0]] + b.drop_first());
    } else {
        assert(b.len() == 1);
        assert(a =~= seq![a[0]]);
        assert(b =~= seq![b[0]]);
    }
}

proof fn lemma_coded_no_equals(s: Seq<char>)
    ensures
        !coded(s).contains('='),
    decreases s.len(),
{
    if s.len() > 0 {
        lemma_coded_no_equals(s.drop_first());
        let c = code_of(s[0]);
        let rest = coded(s.drop_first());
        assert forall|i: int| 0 <= i < coded(s).len() implies coded(s)[i] != '=' by {
            if i < c.len() {
                assert(coded(s)[i] == c[i]);
            } else {
                assert(coded(s)[i] == rest[i - c.len()]);
                assert(rest.contains(rest[i - c.len()]));
            }
        }
    }
}

/// A coded text has no equals sign.
proof fn lemma_coded_row_no_equals(a: LabelsModel)
    ensures
        !joined_text(coded_pairs(a), " "@).contains('='),
    decreases a.len(),
{
    reveal_strlit(" ");
    reveal_strlit(":");
    if a.len() > 0 {
        let p = coded_pairs(a);
        let t = joined_text(p, " "@);
        let rest = a.drop_first();
        lemma_coded_row_no_equals(rest);
        assert(p.drop_first() =~= coded_pairs(rest));
        lemma_joined_front(p);
        lemma_coded_no_equals(a[0].0);
        lemma_coded_no_equals(a[0].1);
        let n = coded(a[0].0);
        let v = coded(a[0].1);
        let r = joined_text(coded_pairs(rest), " "@);
        assert forall|i: int| 0 <= i < t.len() implies t[i] != '=' by {
            if i < n.len() {
                assert(t[i] == n[i]);
                assert(n.contains(n[i]));
            } else if i == n.len() {
                assert(t[i] == ':');
            } else if i < n.len() + 1 + v.len() {
                assert(t[i] == v[i - n.len() - 1]);
                assert(v.contains(v[i - n.len() - 1]));
            } else if i == n.len() + 1 + v.len() {
                assert(t[i] == ' ');
            } else {
                let j = i - n.len() - 1 - v.len() - 1;
                assert(t[i] == r[j]);
                assert(r.contains(r[j]));
            }
        }
    }
}

/// Distinct label sets have distinct rows in a breakdown, and only the empty set has none.
pub proof fn distinct_label_sets_have_distinct_keys(a: LabelsModel, b: LabelsModel)
    requires
        in_order(a),
        in_order(b),
    ensures
        label_key_spec(a) == label_key_spec(b) <==> a == b,
        label_key_spec(a) is None <==> a.len() == 0,
{
    if label_key_spec(a) == label_key_spec(b) {
        if a.len() == 0 {
            assert(a =~= b);
        } else {
            reveal_strlit("=");
            lemma_front(a);
            lemma_front(b);
            lemma_coded_row_no_equals(a);
            lemma_coded_row_no_equals(b);
            assert(joined_labels(a, " "@)[a[0].0.len() as int] == '=');
            assert(joined_labels(b, " "@)[b[0].0.len() as int] == '=');
            assert(joined_labels(a, " "@).contains('='));
            assert(joined_labels(b, " "@).contains('='));
            if reads_back(a) {
                lemma_read_back(a, b);
            } else {
                lemma_coded_rows(a, b);
            }
        }
    }
}

/// Where the value at the front of a text ends: at the first blank behind which a pair begins.
spec fn value_end(s: Seq<char>, name: Seq<char>, from: int) -> int
    decreases s.len() - from,
{
    if from >= s.len() {
        s.len() as int
    } else if s[from] == ' ' && begins_pair(s.skip(from + 1), name) {
        from
    } else {
        value_end(s, name, from + 1)
    }
}

proof fn lemma_value_ends(s: Seq<char>, name: Seq<char>, from: int)
    requires
        0 <= from <= s.len(),
    ensures
        from <= value_end(s, name, from) <= s.len(),
        forall|i: int|
            from <= i < value_end(s, name, from) && #[trigger] s[i] == ' ' ==> !begins_pair(s.skip(i + 1), name),
        value_end(s, name, from) < s.len() ==> s[value_end(s, name, from)] == ' ' && begins_pair(
            s.skip(value_end(s, name, from) + 1),
            name,
        ),
    decreases s.len() - from,
{
    if from < s.len() && !(s[from] == ' ' && begins_pair(s.skip(from + 1), name)) {
        lemma_value_ends(s, name, from + 1);
    }
}

/// Every text with an equals sign reads as some label set.
proof fn lemma_reading(t: Seq<char>) -> (m: LabelsModel)
    requires
        t.contains('='),
    ensures
        m.len() > 0,
        in_order(m),
        reads_back(m),
        joined_labels(m, " "@) == t,
        m[0].0.len() < t.len(),
        t[m[0].0.len() as int] == '=',
        m[0].0 == t.take(m[0].0.len() as int),
    decreases t.len(),
{
    reveal_strlit(" ");
    reveal_strlit("=");
    let k = t.index_of_first('=')->0;
    t.index_of_first_ensures('=');
    let name = t.take(k);
    let s = t.skip(k + 1);
    lemma_value_ends(s, name, 0);
    let i = value_end(s, name, 0);
    let value = s.take(i);
    assert(!name.contains('=')) by {
        if name.contains('=') {
            let j = choose|j: int| 0 <= j < name.len() && name[j] == '=';
            assert(t[j] == '=');
        }
    }
    let behind = s.skip(i);
    assert(reads_as_value(value, name)) by {
        assert forall|j: int| 0 <= j < value.len() && #[trigger] value[j] == ' ' implies !begins_pair(
            value.skip(j + 1),
            name,
        ) by {
            assert(s[j] == ' ');
            assert(s.skip(j + 1) =~= value.skip(j + 1) + behind);
            lemma_pair_begins_within(value.skip(j + 1), behind, name);
        }
    }
    if i == s.len() {
        let m = seq![(name, value)];
        assert(value =~= s);
        assert(joined_labels(m, " "@) =~= t);
        m
    } else {
        let r = s.skip(i + 1);
        lemma_word(r, Seq::empty());
        let n = word_len(r) as int;
        assert(r.contains(r[n]));
        let rest = lemma_reading(r);
        let next = rest[0].0;
        if next.len() < n {
            assert(r[next.len() as int] != '=');
        }
        if next.len() > n {
            assert(next[n] == r[n]);
            assert(next.contains(next[n]));
        }
        assert(next =~= r.take(n));
        assert(!next.contains(' ')) by {
            if next.contains(' ') {
                let j = choose|j: int| 0 <= j < next.len() && next[j] == ' ';
                assert(r[j] == ' ');
            }
        }
        let m = seq![(name, value)] + rest;
        assert(m.drop_first() =~= rest);
        lemma_front(m);
        assert(s =~= value + (" "@ + r));
        assert(joined_labels(m, " "@) =~= t);
        assert forall|a: int, b: int| 0 <= a < b < m.len() implies precedes(#[trigger] m[a].0, #[trigger] m[b].0) by {
            assert(m[b] == rest[b - 1]);
            if a == 0 {
                if b > 1 {
                    assert(precedes(rest[0].0, rest[b - 1].0));
                    lemma_precedes_transitive(name, next, rest[b - 1].0);
                }
            } else {
                assert(m[a] == rest[a - 1]);
                assert(precedes(rest[a - 1].0, rest[b - 1].0));
            }
        }
        assert forall|j: int| 0 < j < m.len() implies !(#[trigger] m[j]).0.contains('=') && !m[j].0.contains(' ') by {
            assert(m[j] == rest[j - 1]);
        }
        assert forall|j: int| 0 <= j < m.len() implies reads_as_value((#[trigger] m[j]).1, m[j].0) by {
            if j > 0 {
                assert(m[j] == rest[j - 1]);
            }
        }
        m
    }
}

/// A label set is shown as its pairs, set apart by blanks, unless these read as another label set: then
/// it is that one which is shown so.
pub proof fn labels_are_shown_as_they_are_unless_they_read_as_others(a: LabelsModel)
    requires
        in_order(a),
        a.len() > 0,
    ensures
        label_key_spec(a) == Some(joined_labels(a, " "@)) || exists|b: LabelsModel|
            {
                &&& b != a
                &&& in_order(b)
                &&& joined_labels(b, " "@) == joined_labels(a, " "@)
                &&& #[trigger] label_key_spec(b) == Some(joined_labels(a, " "@))
            },
{
    if !reads_back(a) {
        reveal_strlit("=");
        let t = joined_labels(a, " "@);
        lemma_front(a);
        assert(t[a[0].0.len() as int] == '=');
        let b = lemma_reading(t);
        assert(label_key_spec(b) == Some(t));
    }
}

/// Labels are shown as they are where no name has a blank or an equals sign, and no value both.
pub proof fn ordinary_labels_are_shown_as_they_are(a: LabelsModel)
    requires
        forall|i: int| 0 <= i < a.len() ==> !(#[trigger] a[i]).0.contains(' ') && !a[i].0.contains('='),
        forall|i: int| 0 <= i < a.len() ==> !(#[trigger] a[i]).1.contains(' ') || !a[i].1.contains('='),
    ensures
        row_key(a) == joined_labels(a, " "@),
{
    assert forall|i: int| 0 <= i < a.len() implies reads_as_value((#[trigger] a[i]).1, a[i].0) by {
        let v = a[i].1;
        assert forall|j: int| 0 <= j < v.len() && #[trigger] v[j] == ' ' implies !begins_pair(v.skip(j + 1), a[i].0) by {
            let r = v.skip(j + 1);
            let n = word_len(r) as int;
            assert(v.contains(v[j]));
            if 0 <= n < r.len() {
                assert(v.contains(v[j + 1 + n]));
            }
        }
    }
    if a.len() > 0 {
        assert(!a[0].0.contains('='));
    }
}

} // verus!
