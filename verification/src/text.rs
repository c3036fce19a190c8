//! Character-level helpers shared by the other modules.

use vstd::prelude::*;

verus! {

/// Appends one character to a `String`.
///
/// Wraps `String::push`; its documentation states that it appends the given
/// `char` to the end of the string, which is what the contract claims.
#[verifier::external_body]
pub(crate) fn push_char(s: &mut String, c: char)
    ensures
        final(s)@ == old(s)@.push(c),
{
    s.push(c);
}

/// The characters of `s`, in order.
pub(crate) fn chars_of(s: &str) -> (v: Vec<char>)
    ensures
        v@ == s@,
{
    let mut v: Vec<char> = Vec::new();
    for c in it: s.chars()
        invariant
            v@ == it.seq().take(it.index() as int),
    {
        v.push(c);
    }
    v
}

/// Builds a `String` holding exactly the characters of `v`.
pub(crate) fn string_from_chars(v: &Vec<char>) -> (s: String)
    ensures
        s@ == v@,
{
    let mut s = String::new();
    let mut i: usize = 0;
    while i < v.len()
        invariant
            i <= v.len(),
            s@ == v@.take(i as int),
        decreases v.len() - i,
    {
        push_char(&mut s, v[i]);
        i = i + 1;
        assert(s@ =~= v@.take(i as int));
    }
    assert(v@.take(v.len() as int) =~= v@);
    s
}

/// Strict lexicographic order on character sequences, comparing characters
/// by code point.  Because UTF-8 preserves code-point order, this is the
/// order in which `str`'s `Ord` places strings.
pub open spec fn key_lt(a: Seq<char>, b: Seq<char>) -> bool
    decreases a.len(),
{
    if a.len() == 0 {
        b.len() > 0
    } else if b.len() == 0 {
        false
    } else if a[0] != b[0] {
        (a[0] as int) < (b[0] as int)
    } else {
        key_lt(a.drop_first(), b.drop_first())
    }
}

/// No key is below itself.
pub proof fn lemma_key_lt_irreflexive(a: Seq<char>)
    ensures
        !key_lt(a, a),
    decreases a.len(),
{
    if a.len() > 0 {
        lemma_key_lt_irreflexive(a.drop_first());
    }
}

/// `key_lt` is transitive.
pub proof fn lemma_key_lt_transitive(a: Seq<char>, b: Seq<char>, c: Seq<char>)
    requires
        key_lt(a, b),
        key_lt(b, c),
    ensures
        key_lt(a, c),
    decreases a.len(),
{
    if a.len() > 0 && b.len() > 0 && c.len() > 0 {
        if a[0] == b[0] && b[0] == c[0] {
            lemma_key_lt_transitive(a.drop_first(), b.drop_first(), c.drop_first());
        }
    }
}

/// Two distinct keys are ordered one way or the other, and never both ways.
pub proof fn lemma_key_lt_total(a: Seq<char>, b: Seq<char>)
    ensures
        a != b ==> (key_lt(a, b) || key_lt(b, a)),
        !(key_lt(a, b) && key_lt(b, a)),
    decreases a.len(),
{
    if a.len() > 0 && b.len() > 0 {
        if a[0] == b[0] {
            lemma_key_lt_total(a.drop_first(), b.drop_first());
            if a != b {
                assert(a.drop_first() != b.drop_first()) by {
                    if a.drop_first() == b.drop_first() {
                        assert(a =~= seq![a[0]] + a.drop_first());
                        assert(b =~= seq![b[0]] + b.drop_first());
                    }
                }
            }
        } else {
            assert((a[0] as int) != (b[0] as int));
        }
    } else if a.len() == 0 && b.len() == 0 {
        assert(a =~= b);
    }
}

/// The outcome of comparing two keys.
#[derive(Clone, Copy, Debug, PartialEq, Eq)]
pub(crate) enum KeyOrder {
    Below,
    Same,
    Above,
}

/// Compares two keys under [`key_lt`].
pub(crate) fn compare_keys(a: &Vec<char>, b: &Vec<char>) -> (r: KeyOrder)
    ensures
        r == KeyOrder::Below <==> key_lt(a@, b@),
        r == KeyOrder::Same <==> a@ == b@,
        r == KeyOrder::Above <==> key_lt(b@, a@),
{
    proof {
        lemma_key_lt_total(a@, b@);
        lemma_key_lt_irreflexive(a@);
    }
    assert(a@.skip(0) =~= a@);
    assert(b@.skip(0) =~= b@);
    let mut i: usize = 0;
    while i < a.len() && i < b.len()
        invariant
            i <= a.len(),
            i <= b.len(),
            a@.take(i as int) == b@.take(i as int),
            key_lt(a@, b@) == key_lt(a@.skip(i as int), b@.skip(i as int)),
            key_lt(b@, a@) == key_lt(b@.skip(i as int), a@.skip(i as int)),
        decreases a.len() - i,
    {
        let x = a[i];
        let y = b[i];
        if x != y {
            proof {
                assert(a@.skip(i as int)[0] == x);
                assert(b@.skip(i as int)[0] == y);
            }
            if x < y {
                return KeyOrder::Below;
            } else {
                return KeyOrder::Above;
            }
        }
        proof {
            assert(a@.skip(i as int).drop_first() =~= a@.skip(i + 1));
            assert(b@.skip(i as int).drop_first() =~= b@.skip(i + 1));
            assert(a@.take(i + 1) =~= a@.take(i as int).push(x));
            assert(b@.take(i + 1) =~= b@.take(i as int).push(y));
        }
        i = i + 1;
    }
    if a.len() == b.len() {
        assert(a@ =~= a@.take(i as int));
        assert(b@ =~= b@.take(i as int));
        KeyOrder::Same
    } else if i == a.len() {
        assert(a@.skip(i as int).len() == 0);
        KeyOrder::Below
    } else {
        assert(b@.skip(i as int).len() == 0);
        KeyOrder::Above
    }
}

/// The fields of `s` separated by `sep`, as `str::split(sep)` yields them;
/// there is always at least one.
pub open spec fn split_on(s: Seq<char>, sep: char) -> Seq<Seq<char>>
    decreases s.len(),
{
    if s.len() == 0 {
        seq![Seq::empty()]
    } else {
        let p = split_on(s.drop_last(), sep);
        if s.last() == sep {
            p.push(Seq::empty())
        } else {
            p.update(p.len() - 1, p.last().push(s.last()))
        }
    }
}

/// The fields `parts` joined with `sep` between each two of them, as
/// `join` on a slice of strings gives them.
pub open spec fn join_on(parts: Seq<Seq<char>>, sep: char) -> Seq<char>
    decreases parts.len(),
{
    if parts.len() == 0 {
        Seq::empty()
    } else if parts.len() == 1 {
        parts[0]
    } else {
        join_on(parts.drop_last(), sep) + seq![sep] + parts.last()
    }
}

/// Joining the fields of `s` with their separator gives `s` back.
pub proof fn lemma_split_join(s: Seq<char>, sep: char)
    ensures
        split_on(s, sep).len() >= 1,
        join_on(split_on(s, sep), sep) == s,
    decreases s.len(),
{
    if s.len() == 0 {
        assert(join_on(split_on(s, sep), sep) =~= s);
    } else {
        let d = s.drop_last();
        let c = s.last();
        lemma_split_join(d, sep);
        let p = split_on(d, sep);
        assert(d.push(c) =~= s);
        if c == sep {
            let q = p.push(Seq::<char>::empty());
            assert(q.drop_last() =~= p);
            assert(join_on(q, sep) =~= join_on(p, sep) + seq![sep] + Seq::<char>::empty());
            assert(join_on(q, sep) =~= s);
        } else {
            let q = p.update(p.len() - 1, p.last().push(c));
            if p.len() == 1 {
                assert(join_on(q, sep) == p[0].push(c));
                assert(join_on(q, sep) =~= s);
            } else {
                assert(q.drop_last() =~= p.drop_last());
                assert(q.last() == p.last().push(c));
                assert(join_on(q, sep) == join_on(p.drop_last(), sep) + seq![sep] + p.last().push(c));
                assert(join_on(p, sep) == join_on(p.drop_last(), sep) + seq![sep] + p.last());
                assert(join_on(q, sep) =~= join_on(p, sep).push(c));
            }
        }
    }
}

/// The views of a vector of character vectors.
pub open spec fn fields_view(fields: Seq<Vec<char>>) -> Seq<Seq<char>> {
    fields.map_values(|f: Vec<char>| f@)
}

/// The `sep`-separated fields of `v[start..end]`.
pub(crate) fn split_fields(v: &Vec<char>, start: usize, end: usize, sep: char) -> (fields: Vec<
    Vec<char>,
>)
    requires
        start <= end <= v@.len(),
    ensures
        fields_view(fields@) == split_on(v@.subrange(start as int, end as int), sep),
{
    let mut done: Vec<Vec<char>> = Vec::new();
    let mut current: Vec<char> = Vec::new();
    let mut i = start;
    assert(v@.subrange(start as int, start as int) =~= Seq::<char>::empty());
    assert(fields_view(done@).push(current@) =~= seq![Seq::<char>::empty()]);
    while i < end
        invariant
            start <= i <= end,
            end <= v@.len(),
            split_on(v@.subrange(start as int, i as int), sep) == fields_view(done@).push(current@),
        decreases end - i,
    {
        let c = v[i];
        let ghost before = v@.subrange(start as int, i as int);
        let ghost after = v@.subrange(start as int, i + 1);
        assert(after.drop_last() =~= before);
        assert(after.last() == c);
        if c == sep {
            let finished = current;
            done.push(finished);
            current = Vec::new();
            assert(fields_view(done@).push(current@) =~= split_on(before, sep).push(Seq::empty()));
        } else {
            let ghost p = split_on(before, sep);
            current.push(c);
            assert(fields_view(done@).push(current@) =~= p.update(p.len() - 1, p.last().push(c)));
        }
        i = i + 1;
    }
    let last = current;
    done.push(last);
    assert(fields_view(done@) =~= split_on(v@.subrange(start as int, end as int), sep));
    done
}

/// Whether two character vectors hold the same characters.
pub(crate) fn same_chars(a: &Vec<char>, b: &Vec<char>) -> (r: bool)
    ensures
        r == (a@ == b@),
{
    match compare_keys(a, b) {
        KeyOrder::Same => true,
        _ => false,
    }
}

} // verus!
