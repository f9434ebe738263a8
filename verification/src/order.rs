//! Lexicographic order on sequences, and the two orders built from it: the
//! order of texts by their characters and the order of topic paths by their
//! segments.

use vstd::prelude::*;
use crate::text::{chars_of, texts};

verus! {

/// `lt` is a strict total order: nothing is below itself, the relation is
/// transitive, and of two different values one is below the other.
pub open spec fn strict_total<T>(lt: spec_fn(T, T) -> bool) -> bool {
    &&& forall|x: T| !#[trigger] lt(x, x)
    &&& forall|x: T, y: T, z: T| #[trigger] lt(x, y) && #[trigger] lt(y, z) ==> lt(x, z)
    &&& forall|x: T, y: T| x != y ==> #[trigger] lt(x, y) || lt(y, x)
}

/// Dictionary order: at the first position where `a` and `b` differ the
/// element of `a` is the smaller one, or `a` is a proper prefix of `b`.
pub open spec fn lex_lt<T>(lt: spec_fn(T, T) -> bool, a: Seq<T>, b: Seq<T>) -> bool
    decreases a.len(),
{
    if b.len() == 0 {
        false
    } else if a.len() == 0 {
        true
    } else if a[0] == b[0] {
        lex_lt(lt, a.skip(1), b.skip(1))
    } else {
        lt(a[0], b[0])
    }
}

/// No sequence is below itself.
pub proof fn lemma_lex_irreflexive<T>(lt: spec_fn(T, T) -> bool, a: Seq<T>)
    ensures
        !lex_lt(lt, a, a),
    decreases a.len(),
{
    if a.len() > 0 {
        lemma_lex_irreflexive(lt, a.skip(1));
    }
}

/// Dictionary order is transitive where the order of the elements is strict
/// and total.
pub proof fn lemma_lex_transitive<T>(lt: spec_fn(T, T) -> bool, a: Seq<T>, b: Seq<T>, c: Seq<T>)
    requires
        strict_total(lt),
        lex_lt(lt, a, b),
        lex_lt(lt, b, c),
    ensures
        lex_lt(lt, a, c),
    decreases a.len(),
{
    if a.len() > 0 && b.len() > 0 && c.len() > 0 {
        if a[0] == b[0] && b[0] == c[0] {
            lemma_lex_transitive(lt, a.skip(1), b.skip(1), c.skip(1));
        }
    }
}

/// Of two different sequences one is below the other.
pub proof fn lemma_lex_total<T>(lt: spec_fn(T, T) -> bool, a: Seq<T>, b: Seq<T>)
    requires
        strict_total(lt),
        a != b,
    ensures
        lex_lt(lt, a, b) || lex_lt(lt, b, a),
    decreases a.len(),
{
    if a.len() > 0 && b.len() > 0 {
        if a[0] == b[0] {
            if a.skip(1) == b.skip(1) {
                assert(a =~= seq![a[0]] + a.skip(1));
                assert(b =~= seq![b[0]] + b.skip(1));
            }
            lemma_lex_total(lt, a.skip(1), b.skip(1));
        }
    } else if a.len() == 0 && b.len() == 0 {
        assert(a =~= b);
    }
}

/// Skipping a common prefix does not change the order.
pub proof fn lemma_lex_skip_common<T>(lt: spec_fn(T, T) -> bool, a: Seq<T>, b: Seq<T>, n: int)
    requires
        0 <= n <= a.len(),
        n <= b.len(),
        a.take(n) == b.take(n),
    ensures
        lex_lt(lt, a, b) == lex_lt(lt, a.skip(n), b.skip(n)),
    decreases n,
{
    if n > 0 {
        assert(b[0] == b.take(n)[0]);
        assert(a.skip(1).take(n - 1) =~= a.take(n).skip(1));
        assert(b.skip(1).take(n - 1) =~= b.take(n).skip(1));
        lemma_lex_skip_common(lt, a.skip(1), b.skip(1), n - 1);
        assert(a.skip(1).skip(n - 1) =~= a.skip(n));
        assert(b.skip(1).skip(n - 1) =~= b.skip(n));
    } else {
        assert(a.skip(0) =~= a);
        assert(b.skip(0) =~= b);
    }
}

/// The order of two characters: that of their code points.
pub open spec fn char_lt() -> spec_fn(char, char) -> bool {
    |x: char, y: char| x < y
}

/// The order of two texts: dictionary order by code points. This is the
/// order in which the standard library compares strings.
pub open spec fn text_lt(a: Seq<char>, b: Seq<char>) -> bool {
    lex_lt(char_lt(), a, b)
}

/// The order of texts, as a relation.
pub open spec fn text_order() -> spec_fn(Seq<char>, Seq<char>) -> bool {
    |a: Seq<char>, b: Seq<char>| text_lt(a, b)
}

/// The order of two topic paths: dictionary order by segments, each pair of
/// segments compared as texts.
pub open spec fn path_lt(a: Seq<Seq<char>>, b: Seq<Seq<char>>) -> bool {
    lex_lt(text_order(), a, b)
}

/// The order of texts is strict and total.
pub proof fn lemma_text_order_strict_total()
    ensures
        strict_total(text_order()),
{
    let lt = text_order();
    assert forall|x: Seq<char>| !#[trigger] lt(x, x) by {
        lemma_lex_irreflexive(char_lt(), x);
    }
    assert forall|x: Seq<char>, y: Seq<char>, z: Seq<char>| #[trigger]
        lt(x, y) && #[trigger] lt(y, z) implies lt(x, z) by {
        lemma_lex_transitive(char_lt(), x, y, z);
    }
    assert forall|x: Seq<char>, y: Seq<char>| x != y implies #[trigger] lt(x, y) || lt(y, x) by {
        lemma_lex_total(char_lt(), x, y);
    }
}

/// Whether `a` comes before `b` in the order of texts.
pub fn text_less(a: &str, b: &str) -> (r: bool)
    ensures
        r == text_lt(a@, b@),
{
    let x = chars_of(a);
    let y = chars_of(b);
    let mut i: usize = 0;
    while i < x.len() && i < y.len()
        invariant
            x@ == a@,
            y@ == b@,
            i <= x.len(),
            i <= y.len(),
            x@.take(i as int) == y@.take(i as int),
        decreases x.len() - i,
    {
        if x[i] != y[i] {
            proof {
                lemma_lex_skip_common(char_lt(), x@, y@, i as int);
            }
            return x[i] < y[i];
        }
        i += 1;
    }
    proof {
        lemma_lex_skip_common(char_lt(), x@, y@, i as int);
    }
    i < y.len()
}

/// Whether `a` comes before `b` in the order of topic paths.
pub fn path_less(a: &Vec<String>, b: &Vec<String>) -> (r: bool)
    ensures
        r == path_lt(texts(a@), texts(b@)),
{
    let ghost x = texts(a@);
    let ghost y = texts(b@);
    let mut i: usize = 0;
    while i < a.len() && i < b.len()
        invariant
            x == texts(a@),
            y == texts(b@),
            i <= a.len(),
            i <= b.len(),
            x.take(i as int) == y.take(i as int),
        decreases a.len() - i,
    {
        if a[i] != b[i] {
            proof {
                lemma_lex_skip_common(text_order(), x, y, i as int);
            }
            return text_less(a[i].as_str(), b[i].as_str());
        }
        i += 1;
    }
    proof {
        lemma_lex_skip_common(text_order(), x, y, i as int);
    }
    i < b.len()
}

/// The order of topic paths, as a relation.
pub open spec fn path_order() -> spec_fn(Seq<Seq<char>>, Seq<Seq<char>>) -> bool {
    |a: Seq<Seq<char>>, b: Seq<Seq<char>>| path_lt(a, b)
}

/// The order of topic paths is strict and total.
pub proof fn lemma_path_order_strict_total()
    ensures
        strict_total(path_order()),
{
    lemma_text_order_strict_total();
    let lt = path_order();
    assert forall|x: Seq<Seq<char>>| !#[trigger] lt(x, x) by {
        lemma_lex_irreflexive(text_order(), x);
    }
    assert forall|x: Seq<Seq<char>>, y: Seq<Seq<char>>, z: Seq<Seq<char>>| #[trigger]
        lt(x, y) && #[trigger] lt(y, z) implies lt(x, z) by {
        lemma_lex_transitive(text_order(), x, y, z);
    }
    assert forall|x: Seq<Seq<char>>, y: Seq<Seq<char>>| x != y implies #[trigger] lt(x, y) || lt(
        y,
        x,
    ) by {
        lemma_lex_total(text_order(), x, y);
    }
}

/// The views of a sequence of topic paths.
pub open spec fn path_views(paths: Seq<Vec<String>>) -> Seq<Seq<Seq<char>>> {
    paths.map_values(|p: Vec<String>| texts(p@))
}

/// Whether two topic paths have the same segments.
pub fn paths_equal(a: &Vec<String>, b: &Vec<String>) -> (r: bool)
    ensures
        r == (texts(a@) == texts(b@)),
{
    if a.len() != b.len() {
        return false;
    }
    let mut i: usize = 0;
    while i < a.len()
        invariant
            i <= a.len(),
            a.len() == b.len(),
            texts(a@).take(i as int) == texts(b@).take(i as int),
        decreases a.len() - i,
    {
        if a[i] != b[i] {
            assert(texts(a@)[i as int] != texts(b@)[i as int]);
            return false;
        }
        i += 1;
    }
    proof {
        assert(texts(a@).take(a.len() as int) =~= texts(a@));
        assert(texts(b@).take(b.len() as int) =~= texts(b@));
    }
    true
}

/// The first `n` of `s`, or all of it where it is shorter.
pub open spec fn first_few<T>(s: Seq<T>, n: nat) -> Seq<T> {
    if s.len() <= n {
        s
    } else {
        s.take(n as int)
    }
}

/// Each entry is below every entry that stands behind it.
pub open spec fn strictly_sorted<T>(lt: spec_fn(T, T) -> bool, s: Seq<T>) -> bool {
    forall|i: int, j: int| 0 <= i < j < s.len() ==> lt(#[trigger] s[i], #[trigger] s[j])
}

/// `sorted` with `x` put at its place in the order, unless it is there
/// already.
pub open spec fn insert_sorted<T>(lt: spec_fn(T, T) -> bool, sorted: Seq<T>, x: T) -> Seq<T>
    decreases sorted.len(),
{
    if sorted.len() == 0 {
        seq![x]
    } else if sorted.last() == x {
        sorted
    } else if lt(sorted.last(), x) {
        sorted.push(x)
    } else {
        insert_sorted(lt, sorted.drop_last(), x).push(sorted.last())
    }
}

/// The values of `s` in ascending order, each once.
pub open spec fn sorted_set<T>(lt: spec_fn(T, T) -> bool, s: Seq<T>) -> Seq<T>
    decreases s.len(),
{
    if s.len() == 0 {
        Seq::empty()
    } else {
        insert_sorted(lt, sorted_set(lt, s.drop_last()), s.last())
    }
}

/// Where `x` is not in an ascending sequence, what `insert_sorted` does: it
/// puts `x` at the one place that keeps the sequence ascending.
pub proof fn lemma_insert_sorted_at<T>(lt: spec_fn(T, T) -> bool, sorted: Seq<T>, x: T, j: int)
    requires
        0 <= j <= sorted.len(),
        forall|k: int| j <= k < sorted.len() ==> #[trigger] sorted[k] != x && !lt(sorted[k], x),
        j == 0 || (sorted[j - 1] != x && lt(sorted[j - 1], x)),
    ensures
        insert_sorted(lt, sorted, x) == sorted.insert(j, x),
    decreases sorted.len() - j,
{
    if j < sorted.len() {
        lemma_insert_sorted_at(lt, sorted.drop_last(), x, j);
    }
}

/// Where `x` stands at place `j` and nothing behind it is below `x`,
/// `insert_sorted` changes nothing.
pub proof fn lemma_insert_sorted_present<T>(
    lt: spec_fn(T, T) -> bool,
    sorted: Seq<T>,
    x: T,
    j: int,
)
    requires
        0 <= j < sorted.len(),
        sorted[j] == x,
        forall|k: int| j < k < sorted.len() ==> #[trigger] sorted[k] != x && !lt(sorted[k], x),
    ensures
        insert_sorted(lt, sorted, x) == sorted,
    decreases sorted.len() - j,
{
    if j < sorted.len() - 1 {
        lemma_insert_sorted_present(lt, sorted.drop_last(), x, j);
    }
}

/// Putting a value into an ascending sequence leaves it ascending, and adds
/// that value to its members and nothing else.
pub proof fn lemma_insert_sorted_keeps_order<T>(lt: spec_fn(T, T) -> bool, sorted: Seq<T>, x: T)
    requires
        strict_total(lt),
        strictly_sorted(lt, sorted),
    ensures
        strictly_sorted(lt, insert_sorted(lt, sorted, x)),
        insert_sorted(lt, sorted, x).to_set() == sorted.to_set().insert(x),
    decreases sorted.len(),
{
    let r = insert_sorted(lt, sorted, x);
    if sorted.len() == 0 {
        assert(r.to_set() =~= sorted.to_set().insert(x)) by {
            assert forall|v: T| r.to_set().contains(v) <==> sorted.to_set().insert(x).contains(
                v,
            ) by {
                if v == x {
                    assert(r[0] == x);
                }
            }
        }
    } else if lt(sorted.last(), x) {
        sorted.lemma_push_to_set_commute(x);
    } else {
        let shorter = sorted.drop_last();
        let last = sorted.last();
        lemma_insert_sorted_keeps_order(lt, shorter, x);
        let inner = insert_sorted(lt, shorter, x);
        inner.lemma_push_to_set_commute(last);
        assert(shorter.push(last) =~= sorted);
        assert forall|i: int, j: int| 0 <= i < j < r.len() implies lt(
            #[trigger] r[i],
            #[trigger] r[j],
        ) by {
            if j == r.len() - 1 {
                assert(inner.to_set().contains(inner[i]));
            }
        }
    }
}

/// `sorted_set` is ascending, so it holds no value twice, and its members
/// are the values of the sequence that it was made from.
pub proof fn lemma_sorted_set<T>(lt: spec_fn(T, T) -> bool, s: Seq<T>)
    requires
        strict_total(lt),
    ensures
        strictly_sorted(lt, sorted_set(lt, s)),
        sorted_set(lt, s).to_set() == s.to_set(),
    decreases s.len(),
{
    if s.len() > 0 {
        lemma_sorted_set(lt, s.drop_last());
        lemma_insert_sorted_keeps_order(lt, sorted_set(lt, s.drop_last()), s.last());
        assert(s.drop_last().push(s.last()) =~= s);
    }
}

/// Puts `path` at its place among ascending paths, unless it is there.
pub fn insert_path(sorted: &mut Vec<Vec<String>>, path: Vec<String>)
    ensures
        path_views(final(sorted)@) == insert_sorted(
            path_order(),
            path_views(old(sorted)@),
            texts(path@),
        ),
{
    let ghost before = path_views(sorted@);
    let ghost x = texts(path@);
    let mut j: usize = sorted.len();
    while j > 0
        invariant
            j <= sorted.len(),
            before == path_views(sorted@),
            x == texts(path@),
            sorted@ == old(sorted)@,
            forall|k: int|
                j <= k < before.len() ==> #[trigger] before[k] != x && !path_order()(before[k], x),
        ensures
            j == 0 || (before[j - 1] != x && path_order()(before[j - 1], x)),
        decreases j,
    {
        if paths_equal(&sorted[j - 1], &path) {
            proof {
                lemma_insert_sorted_present(path_order(), before, x, j - 1);
            }
            return ;
        }
        if path_less(&sorted[j - 1], &path) {
            break ;
        }
        j -= 1;
    }
    proof {
        lemma_insert_sorted_at(path_order(), before, x, j as int);
    }
    sorted.insert(j, path);
}

/// Puts `text` at its place among ascending texts, unless it is there.
pub fn insert_text(sorted: &mut Vec<String>, text: String)
    ensures
        texts(final(sorted)@) == insert_sorted(text_order(), texts(old(sorted)@), text@),
{
    let ghost before = texts(sorted@);
    let mut j: usize = sorted.len();
    while j > 0
        invariant
            j <= sorted.len(),
            before == texts(sorted@),
            sorted@ == old(sorted)@,
            forall|k: int|
                j <= k < before.len() ==> #[trigger] before[k] != text@ && !text_order()(
                    before[k],
                    text@,
                ),
        ensures
            j == 0 || (before[j - 1] != text@ && text_order()(before[j - 1], text@)),
        decreases j,
    {
        if sorted[j - 1] == text {
            proof {
                lemma_insert_sorted_present(text_order(), before, text@, j - 1);
            }
            return ;
        }
        if text_less(sorted[j - 1].as_str(), text.as_str()) {
            break ;
        }
        j -= 1;
    }
    proof {
        lemma_insert_sorted_at(text_order(), before, text@, j as int);
    }
    sorted.insert(j, text);
}

} // verus!
