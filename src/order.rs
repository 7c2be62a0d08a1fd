use vstd::prelude::*;
use crate::automata::{distinct, labels, same_symbols};
use crate::stack::chars_of;

verus! {

/// Lexicographic order on labels, character by character, a proper prefix
/// coming first.
pub open spec fn lex_less(a: Seq<char>, b: Seq<char>) -> bool
    decreases a.len(),
{
    if a.len() == 0 {
        b.len() > 0
    } else if b.len() == 0 {
        false
    } else if a[0] != b[0] {
        a[0] < b[0]
    } else {
        lex_less(a.drop_first(), b.drop_first())
    }
}

/// Strictly increasing in lexicographic order.
pub open spec fn lex_sorted(s: Seq<Seq<char>>) -> bool {
    forall|i: int, j: int| 0 <= i < j < s.len() ==> lex_less(#[trigger] s[i], #[trigger] s[j])
}

pub proof fn lemma_lex_irreflexive(a: Seq<char>)
    ensures
        !lex_less(a, a),
    decreases a.len(),
{
    if a.len() > 0 {
        lemma_lex_irreflexive(a.drop_first());
    }
}

pub proof fn lemma_lex_transitive(a: Seq<char>, b: Seq<char>, c: Seq<char>)
    requires
        lex_less(a, b),
        lex_less(b, c),
    ensures
        lex_less(a, c),
    decreases a.len(),
{
    if a.len() > 0 && b.len() > 0 && c.len() > 0 && a[0] == b[0] && b[0] == c[0] {
        lemma_lex_transitive(a.drop_first(), b.drop_first(), c.drop_first());
    }
}

pub proof fn lemma_lex_total(a: Seq<char>, b: Seq<char>)
    requires
        a != b,
    ensures
        lex_less(a, b) || lex_less(b, a),
    decreases a.len(),
{
    if a.len() > 0 && b.len() > 0 && a[0] == b[0] {
        if a.drop_first() == b.drop_first() {
            assert(a.drop_first().len() == b.drop_first().len());
            assert(a.len() == b.len());
            assert forall|i: int| 0 <= i < a.len() implies a[i] == b[i] by {
                if i > 0 {
                    assert(a[i] == a.drop_first()[i - 1]);
                    assert(b[i] == b.drop_first()[i - 1]);
                }
            }
            assert(a =~= b);
        }
        lemma_lex_total(a.drop_first(), b.drop_first());
    } else if a.len() == 0 && b.len() == 0 {
        assert(a =~= b);
    }
}

/// Two strictly sorted lists of the same labels are equal.
pub proof fn lemma_sorted_unique(a: Seq<Seq<char>>, b: Seq<Seq<char>>)
    requires
        lex_sorted(a),
        lex_sorted(b),
        same_symbols(a, b),
    ensures
        a == b,
    decreases a.len(),
{
    if a.len() > 0 && b.len() > 0 {
        // The first entry of each is the smallest of both.
        assert(b.contains(a[0]));
        assert(a.contains(b[0]));
        let j = choose|j: int| 0 <= j < b.len() && b[j] == a[0];
        let i = choose|i: int| 0 <= i < a.len() && a[i] == b[0];
        if a[0] != b[0] {
            assert(j > 0 && i > 0);
            assert(lex_less(b[0], b[j]));
            assert(lex_less(a[0], a[i]));
            lemma_lex_transitive(a[0], b[0], a[0]);
            lemma_lex_irreflexive(a[0]);
        }
        let a2 = a.drop_first();
        let b2 = b.drop_first();
        assert forall|x: int| 0 <= x < a2.len() implies b2.contains(#[trigger] a2[x]) by {
            assert(lex_less(a[0], a[x + 1]));
            lemma_lex_irreflexive(a[0]);
            let y = choose|y: int| 0 <= y < b.len() && b[y] == a[x + 1];
            assert(y != 0);
            assert(b2[y - 1] == a2[x]);
        }
        assert forall|y: int| 0 <= y < b2.len() implies a2.contains(#[trigger] b2[y]) by {
            assert(lex_less(b[0], b[y + 1]));
            lemma_lex_irreflexive(b[0]);
            let x = choose|x: int| 0 <= x < a.len() && a[x] == b[y + 1];
            assert(x != 0);
            assert(a2[x - 1] == b2[y]);
        }
        lemma_sorted_unique(a2, b2);
        assert forall|k: int| 0 <= k < a.len() implies a[k] == b[k] by {
            if k > 0 {
                assert(a[k] == a2[k - 1]);
                assert(b[k] == b2[k - 1]);
            }
        }
        assert(a =~= b);
    } else if a.len() > 0 {
        assert(b.contains(a[0]));
    } else if b.len() > 0 {
        assert(a.contains(b[0]));
    } else {
        assert(a =~= b);
    }
}

/// Whether `a` comes before `b` in lexicographic order.
pub fn label_less(a: &String, b: &String) -> (r: bool)
    ensures
        r == lex_less(a@, b@),
{
    let x = chars_of(a.as_str());
    let y = chars_of(b.as_str());
    let mut i: usize = 0;
    proof {
        assert(a@.subrange(0, a@.len() as int) =~= a@);
        assert(b@.subrange(0, b@.len() as int) =~= b@);
    }
    while i < x.len() && i < y.len() && x[i] == y[i]
        invariant
            x@ == a@,
            y@ == b@,
            i <= x@.len(),
            i <= y@.len(),
            lex_less(a@, b@) == lex_less(
                a@.subrange(i as int, a@.len() as int),
                b@.subrange(i as int, b@.len() as int),
            ),
        decreases x@.len() - i,
    {
        proof {
            let sa = a@.subrange(i as int, a@.len() as int);
            let sb = b@.subrange(i as int, b@.len() as int);
            assert(sa.drop_first() =~= a@.subrange(i + 1, a@.len() as int));
            assert(sb.drop_first() =~= b@.subrange(i + 1, b@.len() as int));
            assert(sa[0] == sb[0]);
        }
        i = i + 1;
    }
    proof {
        let sa = a@.subrange(i as int, a@.len() as int);
        let sb = b@.subrange(i as int, b@.len() as int);
        if i < x.len() && i < y.len() {
            assert(sa[0] == x@[i as int] && sb[0] == y@[i as int]);
        }
    }
    if i == x.len() {
        i < y.len()
    } else if i == y.len() {
        false
    } else {
        x[i] < y[i]
    }
}

/// The labels of `v` in strictly increasing lexicographic order.
pub fn sorted_labels(v: &Vec<String>) -> (r: Vec<String>)
    requires
        distinct(labels(v@)),
    ensures
        lex_sorted(labels(r@)),
        same_symbols(labels(r@), labels(v@)),
        r@.len() == v@.len(),
{
    let mut out: Vec<String> = Vec::new();
    let ghost mut origin: Seq<int> = Seq::empty();
    for i in 0..v.len()
        invariant
            distinct(labels(v@)),
            out@.len() == i,
            origin.len() == i,
            lex_sorted(labels(out@)),
            forall|k: int|
                0 <= k < out@.len() ==> 0 <= #[trigger] origin[k] < i && labels(out@)[k] == labels(
                    v@,
                )[origin[k]],
            forall|j: int| 0 <= j < i ==> labels(out@).contains(#[trigger] labels(v@)[j]),
    {
        let x = v[i].clone();
        let mut pos: usize = 0;
        while pos < out.len() && !label_less(&x, &out[pos])
            invariant
                pos <= out@.len(),
                forall|k: int| 0 <= k < pos ==> !lex_less(x@, #[trigger] labels(out@)[k]),
            decreases out@.len() - pos,
        {
            pos = pos + 1;
        }
        let ghost before = labels(out@);
        let ghost xl = x@;
        proof {
            assert forall|k: int| 0 <= k < before.len() implies before[k] != xl by {
                assert(labels(v@)[origin[k]] != labels(v@)[i as int]);
            }
            assert forall|k: int| 0 <= k < pos implies lex_less(#[trigger] before[k], xl) by {
                lemma_lex_total(before[k], xl);
            }
            assert forall|k: int| pos <= k < before.len() implies lex_less(xl, #[trigger] before[k]) by {
                if k > pos {
                    lemma_lex_transitive(xl, before[pos as int], before[k]);
                }
            }
        }
        out.insert(pos, x);
        proof {
            let after = labels(out@);
            assert(after =~= before.insert(pos as int, xl));
            origin = origin.insert(pos as int, i as int);
            assert forall|a: int, b: int| 0 <= a < b < after.len() implies lex_less(
                #[trigger] after[a],
                #[trigger] after[b],
            ) by {
                if b < pos {
                } else if b == pos {
                } else if a < pos {
                    lemma_lex_transitive(before[a], xl, before[b - 1]);
                } else if a == pos {
                } else {
                }
            }
            assert forall|k: int| 0 <= k < out@.len() implies 0 <= #[trigger] origin[k] < i + 1
                && labels(out@)[k] == labels(v@)[origin[k]] by {
                if k < pos {
                } else if k == pos {
                } else {
                }
            }
            assert forall|j: int| 0 <= j < i + 1 implies labels(out@).contains(#[trigger] labels(v@)[j]) by {
                if j == i {
                    assert(after[pos as int] == labels(v@)[j]);
                } else {
                    let k = choose|k: int| 0 <= k < before.len() && before[k] == labels(v@)[j];
                    if k < pos {
                        assert(after[k] == before[k]);
                    } else {
                        assert(after[k + 1] == before[k]);
                    }
                }
            }
        }
    }
    proof {
        assert forall|k: int| 0 <= k < out@.len() implies labels(v@).contains(#[trigger] labels(out@)[k]) by {
            assert(labels(v@)[origin[k]] == labels(out@)[k]);
        }
    }
    out
}

} // verus!
