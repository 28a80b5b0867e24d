use vstd::prelude::*;

use crate::path::{chars_of, RelPath};

verus! {

/// Text order: character by character, a proper prefix first.
pub open spec fn chars_lt(a: Seq<char>, b: Seq<char>) -> bool
    decreases a.len(),
{
    if a.len() == 0 {
        b.len() > 0
    } else if b.len() == 0 {
        false
    } else if a[0] != b[0] {
        a[0] < b[0]
    } else {
        chars_lt(a.drop_first(), b.drop_first())
    }
}

/// Path order: component by component in text order, a proper prefix first.
pub open spec fn path_lt(a: Seq<Seq<char>>, b: Seq<Seq<char>>) -> bool
    decreases a.len(),
{
    if a.len() == 0 {
        b.len() > 0
    } else if b.len() == 0 {
        false
    } else if a[0] != b[0] {
        chars_lt(a[0], b[0])
    } else {
        path_lt(a.drop_first(), b.drop_first())
    }
}

pub proof fn lemma_chars_lt_irreflexive(a: Seq<char>)
    ensures
        !chars_lt(a, a),
    decreases a.len(),
{
    if a.len() > 0 {
        lemma_chars_lt_irreflexive(a.drop_first());
    }
}

pub proof fn lemma_chars_lt_transitive(a: Seq<char>, b: Seq<char>, c: Seq<char>)
    requires
        chars_lt(a, b),
        chars_lt(b, c),
    ensures
        chars_lt(a, c),
    decreases a.len(),
{
    if a.len() > 0 && b.len() > 0 && c.len() > 0 {
        if a[0] == b[0] && b[0] == c[0] {
            lemma_chars_lt_transitive(a.drop_first(), b.drop_first(), c.drop_first());
        }
    }
}

pub proof fn lemma_path_lt_irreflexive(a: Seq<Seq<char>>)
    ensures
        !path_lt(a, a),
    decreases a.len(),
{
    if a.len() > 0 {
        lemma_path_lt_irreflexive(a.drop_first());
    }
}

pub proof fn lemma_path_lt_transitive(a: Seq<Seq<char>>, b: Seq<Seq<char>>, c: Seq<Seq<char>>)
    requires
        path_lt(a, b),
        path_lt(b, c),
    ensures
        path_lt(a, c),
    decreases a.len(),
{
    if a.len() > 0 && b.len() > 0 && c.len() > 0 {
        if a[0] == b[0] && b[0] == c[0] {
            lemma_path_lt_transitive(a.drop_first(), b.drop_first(), c.drop_first());
        } else if a[0] != b[0] && b[0] != c[0] {
            lemma_chars_lt_transitive(a[0], b[0], c[0]);
            if a[0] == c[0] {
                lemma_chars_lt_irreflexive(a[0]);
                lemma_chars_lt_transitive(a[0], b[0], a[0]);
            }
        }
    }
}

/// How two texts compare: -1 below, 0 equal, 1 above.
pub open spec fn text_ordered(r: i8, a: Seq<char>, b: Seq<char>) -> bool {
    &&& (r == -1 ==> chars_lt(a, b))
    &&& (r == 0 ==> a == b)
    &&& (r == 1 ==> chars_lt(b, a))
    &&& (r == -1 || r == 0 || r == 1)
}

/// How two paths compare: -1 below, 0 equal, 1 above.
pub open spec fn path_ordered(r: i8, a: Seq<Seq<char>>, b: Seq<Seq<char>>) -> bool {
    &&& (r == -1 ==> path_lt(a, b))
    &&& (r == 0 ==> a == b)
    &&& (r == 1 ==> path_lt(b, a))
    &&& (r == -1 || r == 0 || r == 1)
}

proof fn lemma_chars_lt_skip(a: Seq<char>, b: Seq<char>, i: int)
    requires
        0 <= i,
        i <= a.len(),
        i <= b.len(),
        a.subrange(0, i) == b.subrange(0, i),
    ensures
        chars_lt(a, b) == chars_lt(a.subrange(i, a.len() as int), b.subrange(i, b.len() as int)),
    decreases i,
{
    if i > 0 {
        assert(a[0] == a.subrange(0, i)[0]);
        assert(b[0] == b.subrange(0, i)[0]);
        assert(a.drop_first().subrange(0, i - 1) =~= a.subrange(0, i).drop_first());
        assert(b.drop_first().subrange(0, i - 1) =~= b.subrange(0, i).drop_first());
        lemma_chars_lt_skip(a.drop_first(), b.drop_first(), i - 1);
        assert(a.drop_first().subrange(i - 1, a.len() - 1) =~= a.subrange(i, a.len() as int));
        assert(b.drop_first().subrange(i - 1, b.len() - 1) =~= b.subrange(i, b.len() as int));
    } else {
        assert(a.subrange(0, a.len() as int) =~= a);
        assert(b.subrange(0, b.len() as int) =~= b);
    }
}

/// Compares two texts in text order.
pub fn compare_text(a: &str, b: &str) -> (r: i8)
    ensures
        text_ordered(r, a@, b@),
{
    let x = chars_of(a);
    let y = chars_of(b);
    let mut i: usize = 0;
    while i < x.len() && i < y.len() && x[i] == y[i]
        invariant
            x@ == a@,
            y@ == b@,
            i <= x@.len(),
            i <= y@.len(),
            x@.subrange(0, i as int) == y@.subrange(0, i as int),
        decreases x@.len() - i,
    {
        assert(x@.subrange(0, i + 1) =~= x@.subrange(0, i as int).push(x@[i as int]));
        assert(y@.subrange(0, i + 1) =~= y@.subrange(0, i as int).push(y@[i as int]));
        i = i + 1;
    }
    proof {
        lemma_chars_lt_skip(x@, y@, i as int);
        let xs = x@.subrange(i as int, x@.len() as int);
        let ys = y@.subrange(i as int, y@.len() as int);
        if i < x@.len() && i < y@.len() {
            assert(xs[0] == x@[i as int]);
            assert(ys[0] == y@[i as int]);
            lemma_chars_lt_skip(y@, x@, i as int);
        } else if i == x@.len() && i == y@.len() {
            assert(x@.subrange(0, i as int) =~= x@);
            assert(y@.subrange(0, i as int) =~= y@);
        } else {
            lemma_chars_lt_skip(y@, x@, i as int);
        }
    }
    if i < x.len() && i < y.len() {
        if x[i] < y[i] {
            -1
        } else {
            1
        }
    } else if i == x.len() && i == y.len() {
        0
    } else if i == x.len() {
        -1
    } else {
        1
    }
}

proof fn lemma_path_lt_skip(a: Seq<Seq<char>>, b: Seq<Seq<char>>, i: int)
    requires
        0 <= i,
        i <= a.len(),
        i <= b.len(),
        a.subrange(0, i) == b.subrange(0, i),
    ensures
        path_lt(a, b) == path_lt(a.subrange(i, a.len() as int), b.subrange(i, b.len() as int)),
    decreases i,
{
    if i > 0 {
        assert(a[0] == a.subrange(0, i)[0]);
        assert(b[0] == b.subrange(0, i)[0]);
        assert(a.drop_first().subrange(0, i - 1) =~= a.subrange(0, i).drop_first());
        assert(b.drop_first().subrange(0, i - 1) =~= b.subrange(0, i).drop_first());
        lemma_path_lt_skip(a.drop_first(), b.drop_first(), i - 1);
        assert(a.drop_first().subrange(i - 1, a.len() - 1) =~= a.subrange(i, a.len() as int));
        assert(b.drop_first().subrange(i - 1, b.len() - 1) =~= b.subrange(i, b.len() as int));
    } else {
        assert(a.subrange(0, a.len() as int) =~= a);
        assert(b.subrange(0, b.len() as int) =~= b);
    }
}

/// Compares two paths in path order.
pub fn compare_paths(a: &RelPath, b: &RelPath) -> (r: i8)
    ensures
        path_ordered(r, a@, b@),
{
    let x = a.parts();
    let y = b.parts();
    let ghost xv = a@;
    let ghost yv = b@;
    assert(xv.len() == x@.len());
    assert(yv.len() == y@.len());
    let mut i: usize = 0;
    let mut c: i8 = 0;
    while i < x.len() && i < y.len() && c == 0
        invariant
            Seq::new(x@.len(), |k: int| x@[k]@) == xv,
            Seq::new(y@.len(), |k: int| y@[k]@) == yv,
            xv.len() == x@.len(),
            yv.len() == y@.len(),
            i <= x@.len(),
            i <= y@.len(),
            xv.subrange(0, i as int) == yv.subrange(0, i as int),
            c != 0 ==> i < x@.len() && i < y@.len() && text_ordered(c, xv[i as int], yv[i as int]),
        decreases x@.len() - i + (if c == 0 { 1int } else { 0int }),
    {
        c = compare_text(x[i].as_str(), y[i].as_str());
        assert(xv[i as int] == x@[i as int]@);
        assert(yv[i as int] == y@[i as int]@);
        if c == 0 {
            assert(xv.subrange(0, i + 1) =~= xv.subrange(0, i as int).push(xv[i as int]));
            assert(yv.subrange(0, i + 1) =~= yv.subrange(0, i as int).push(yv[i as int]));
            i = i + 1;
        }
    }
    proof {
        lemma_path_lt_skip(xv, yv, i as int);
        lemma_path_lt_skip(yv, xv, i as int);
        let xs = xv.subrange(i as int, xv.len() as int);
        let ys = yv.subrange(i as int, yv.len() as int);
        if i < xv.len() && i < yv.len() {
            assert(xs[0] == xv[i as int]);
            assert(ys[0] == yv[i as int]);
            lemma_chars_lt_irreflexive(xv[i as int]);
        } else if i == xv.len() && i == yv.len() {
            assert(xv.subrange(0, i as int) =~= xv);
            assert(yv.subrange(0, i as int) =~= yv);
        }
    }
    if c != 0 {
        c
    } else if i == x.len() && i == y.len() {
        0
    } else if i == x.len() {
        -1
    } else {
        1
    }
}

} // verus!
