//! What looking a property up gives after lines are set or removed: the
//! line just set is found under its name, and setting or removing lines of
//! another name changes nothing that is found.

use vstd::prelude::*;
use crate::contentline::{first_line, lemma_first_line, remove_named, set_line, LineV};
use crate::text::eq_ic;

verus! {

/// The first line named `n` (case-insensitively), if any.
pub open spec fn named(ls: Seq<LineV>, n: Seq<char>) -> Option<LineV> {
    match first_line(ls, n, 0) {
        Some(i) => Some(ls[i]),
        None => None,
    }
}

proof fn lemma_first_line_at(ls: Seq<LineV>, n: Seq<char>, from: int, i: int)
    requires
        0 <= from <= i < ls.len(),
        eq_ic(ls[i].name, n),
        forall|k: int| from <= k < i ==> !eq_ic(#[trigger] ls[k].name, n),
    ensures
        first_line(ls, n, from) == Some(i),
    decreases i - from,
{
    if from < i {
        lemma_first_line_at(ls, n, from + 1, i);
    }
}

proof fn lemma_first_line_none(ls: Seq<LineV>, n: Seq<char>, from: int)
    requires
        0 <= from,
        forall|k: int| from <= k < ls.len() ==> !eq_ic(#[trigger] ls[k].name, n),
    ensures
        first_line(ls, n, from) is None,
    decreases ls.len() - from,
{
    if from < ls.len() {
        lemma_first_line_none(ls, n, from + 1);
    }
}

/// Looking up after appending a line: an earlier match wins, else the new
/// line when its name matches.
pub proof fn lemma_named_push(x: Seq<LineV>, y: LineV, n: Seq<char>)
    ensures
        named(x.push(y), n) == match named(x, n) {
            Some(z) => Some(z),
            None => if eq_ic(y.name, n) {
                Some(y)
            } else {
                None
            },
        },
{
    let xs = x.push(y);
    lemma_first_line(x, n, 0);
    match first_line(x, n, 0) {
        Some(i) => {
            assert forall|k: int| 0 <= k < i implies !eq_ic(#[trigger] xs[k].name, n) by {
                assert(xs[k] == x[k]);
            }
            assert(xs[i] == x[i]);
            lemma_first_line_at(xs, n, 0, i);
        },
        None => {
            assert forall|k: int| 0 <= k < x.len() implies !eq_ic(#[trigger] xs[k].name, n) by {
                assert(xs[k] == x[k]);
            }
            if eq_ic(y.name, n) {
                lemma_first_line_at(xs, n, 0, x.len() as int);
            } else {
                lemma_first_line_none(xs, n, 0);
            }
        },
    }
}

proof fn lemma_named_update(ls: Seq<LineV>, i: int, l: LineV, n: Seq<char>)
    requires
        0 <= i < ls.len(),
        !eq_ic(ls[i].name, n),
        !eq_ic(l.name, n),
    ensures
        named(ls.update(i, l), n) == named(ls, n),
{
    let ls2 = ls.update(i, l);
    lemma_first_line(ls, n, 0);
    match first_line(ls, n, 0) {
        Some(j) => {
            assert(j != i);
            assert forall|k: int| 0 <= k < j implies !eq_ic(#[trigger] ls2[k].name, n) by {
                if k != i {
                    assert(ls2[k] == ls[k]);
                }
            }
            assert(ls2[j] == ls[j]);
            lemma_first_line_at(ls2, n, 0, j);
        },
        None => {
            assert forall|k: int| 0 <= k < ls2.len() implies !eq_ic(#[trigger] ls2[k].name, n) by {
                if k != i {
                    assert(ls2[k] == ls[k]);
                }
            }
            lemma_first_line_none(ls2, n, 0);
        },
    }
}

/// The line just set is what is found under its name.
pub proof fn lemma_named_set_same(ls: Seq<LineV>, l: LineV)
    ensures
        named(set_line(ls, l), l.name) == Some(l),
{
    lemma_first_line(ls, l.name, 0);
    match first_line(ls, l.name, 0) {
        Some(i) => {
            let ls2 = ls.update(i, l);
            assert forall|k: int| 0 <= k < i implies !eq_ic(#[trigger] ls2[k].name, l.name) by {
                assert(ls2[k] == ls[k]);
            }
            lemma_first_line_at(ls2, l.name, 0, i);
        },
        None => {
            lemma_named_push(ls, l, l.name);
        },
    }
}

/// Setting a line of another name changes nothing that is found under `n`.
pub proof fn lemma_named_set_other(ls: Seq<LineV>, l: LineV, n: Seq<char>)
    requires
        !eq_ic(l.name, n),
    ensures
        named(set_line(ls, l), n) == named(ls, n),
{
    lemma_first_line(ls, l.name, 0);
    match first_line(ls, l.name, 0) {
        Some(i) => {
            lemma_named_update(ls, i, l, n);
        },
        None => {
            lemma_named_push(ls, l, n);
        },
    }
}

/// Removing the lines of another name changes nothing that is found under `n`.
pub proof fn lemma_named_remove_other(ls: Seq<LineV>, m: Seq<char>, n: Seq<char>)
    requires
        !eq_ic(m, n),
    ensures
        named(remove_named(ls, m), n) == named(ls, n),
    decreases ls.len(),
{
    if ls.len() == 0 {
        assert(remove_named(ls, m) =~= Seq::<LineV>::empty());
    } else {
        let d = ls.drop_last();
        let y = ls.last();
        lemma_named_remove_other(d, m, n);
        assert(d.push(y) =~= ls);
        lemma_named_push(d, y, n);
        let r = remove_named(d, m);
        if !eq_ic(y.name, m) {
            lemma_named_push(r, y, n);
        }
    }
}

/// After removing the lines of a name, none is found under it.
pub proof fn lemma_named_remove_same(ls: Seq<LineV>, m: Seq<char>)
    ensures
        named(remove_named(ls, m), m) is None,
    decreases ls.len(),
{
    if ls.len() > 0 {
        let d = ls.drop_last();
        let y = ls.last();
        lemma_named_remove_same(d, m);
        let r = remove_named(d, m);
        if !eq_ic(y.name, m) {
            lemma_named_push(r, y, m);
        }
    } else {
        assert(remove_named(ls, m) =~= Seq::<LineV>::empty());
    }
}

/// Every line left after removing the lines of a name was there before.
pub proof fn lemma_remove_named_subset(ls: Seq<LineV>, m: Seq<char>)
    ensures
        forall|i: int| 0 <= i < remove_named(ls, m).len() ==> ls.contains(#[trigger] remove_named(ls, m)[i]),
    decreases ls.len(),
{
    if ls.len() > 0 {
        let d = ls.drop_last();
        let y = ls.last();
        lemma_remove_named_subset(d, m);
        let r = remove_named(d, m);
        assert forall|i: int| 0 <= i < remove_named(ls, m).len() implies ls.contains(
            #[trigger] remove_named(ls, m)[i],
        ) by {
            if i < r.len() {
                assert(remove_named(ls, m)[i] == r[i]);
                let k = choose|k: int| 0 <= k < d.len() && d[k] == r[i];
                assert(ls[k] == d[k]);
            } else {
                assert(remove_named(ls, m)[i] == y);
                assert(ls[ls.len() - 1] == y);
            }
        }
    } else {
        assert(remove_named(ls, m) =~= Seq::<LineV>::empty());
    }
}

} // verus!
