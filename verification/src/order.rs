//! The order of identifiers.

use vstd::prelude::*;

verus! {

/// Whether `a` comes before `b` in the order of their characters, or is the same text.
pub open spec fn in_order(a: Seq<char>, b: Seq<char>) -> bool
    decreases a.len(),
{
    ||| a.len() == 0
    ||| b.len() > 0 && (a[0] < b[0] || a[0] == b[0] && in_order(a.drop_first(), b.drop_first()))
}

/// Whether each text comes before the next ones or equals them.
pub open spec fn ascending(texts: Seq<Seq<char>>) -> bool {
    forall|i: int, j: int|
        0 <= i < j < texts.len() ==> in_order(#[trigger] texts[i], #[trigger] texts[j])
}

/// `slice::sort` on texts: the same texts, each as often as before, in the order in which their
/// characters stand in the Unicode code charts.
#[verifier::external_body]
pub(crate) fn sort_texts(texts: &mut Vec<String>)
    ensures
        ascending(final(texts).deep_view()),
        final(texts).deep_view().to_multiset() == old(texts).deep_view().to_multiset(),
{
    texts.sort();
}

/// Two different texts come in one order only.
pub proof fn law_order_is_antisymmetric(a: Seq<char>, b: Seq<char>)
    requires
        in_order(a, b),
        in_order(b, a),
    ensures
        a == b,
    decreases a.len(),
{
    if a.len() > 0 && b.len() > 0 {
        law_order_is_antisymmetric(a.drop_first(), b.drop_first());
        assert(a =~= seq![a[0]] + a.drop_first());
        assert(b =~= seq![b[0]] + b.drop_first());
    } else {
        assert(a =~= b);
    }
}

/// There is one way only to list texts once each in ascending order: the order in which they came
/// does not matter.
pub proof fn law_ascending_list_is_determined(a: Seq<Seq<char>>, b: Seq<Seq<char>>)
    requires
        ascending(a),
        ascending(b),
        a.no_duplicates(),
        b.no_duplicates(),
        forall|text: Seq<char>| #[trigger] a.contains(text) <==> b.contains(text),
    ensures
        a == b,
    decreases a.len(),
{
    if a.len() == 0 {
        if b.len() > 0 {
            assert(b.contains(b[0]));
            assert(a.contains(b[0]));
        }
        assert(a =~= b);
    } else {
        assert(a.contains(a[0]));
        assert(b.contains(a[0]));
        assert(b.contains(b[0]));
        assert(a.contains(b[0]));
        let at_b = choose|at: int| 0 <= at < b.len() && b[at] == a[0];
        let at_a = choose|at: int| 0 <= at < a.len() && a[at] == b[0];
        if at_a > 0 && at_b > 0 {
            assert(in_order(a[0], a[at_a]));
            assert(in_order(b[0], b[at_b]));
            law_order_is_antisymmetric(a[0], b[0]);
        }
        assert(a[0] == b[0]);
        let rest_a = a.drop_first();
        let rest_b = b.drop_first();
        assert forall|text: Seq<char>| #[trigger] rest_a.contains(text) <==> rest_b.contains(
            text,
        ) by {
            if rest_a.contains(text) {
                let at = choose|at: int| 0 <= at < rest_a.len() && rest_a[at] == text;
                assert(a[at + 1] == text);
                assert(a.contains(text));
                let other = choose|other: int| 0 <= other < b.len() && b[other] == text;
                assert(rest_b[other - 1] == text);
            }
            if rest_b.contains(text) {
                let at = choose|at: int| 0 <= at < rest_b.len() && rest_b[at] == text;
                assert(b[at + 1] == text);
                assert(b.contains(text));
                assert(a.contains(text));
                let other = choose|other: int| 0 <= other < a.len() && a[other] == text;
                assert(rest_a[other - 1] == text);
            }
        }
        assert(ascending(rest_a)) by {
            assert forall|i: int, j: int| 0 <= i < j < rest_a.len() implies in_order(
                #[trigger] rest_a[i],
                #[trigger] rest_a[j],
            ) by {
                assert(in_order(a[i + 1], a[j + 1]));
            }
        }
        assert(ascending(rest_b)) by {
            assert forall|i: int, j: int| 0 <= i < j < rest_b.len() implies in_order(
                #[trigger] rest_b[i],
                #[trigger] rest_b[j],
            ) by {
                assert(in_order(b[i + 1], b[j + 1]));
            }
        }
        law_ascending_list_is_determined(rest_a, rest_b);
        assert(a =~= seq![a[0]] + rest_a);
        assert(b =~= seq![b[0]] + rest_b);
    }
}

/// A text comes before another, or is the same, if the other starts with it, or if at the first
/// place where they differ it has the character with the smaller code.
pub proof fn law_first_difference_decides(a: Seq<char>, b: Seq<char>)
    ensures
        in_order(a, b) <==> {
            ||| a.is_prefix_of(b)
            ||| exists|i: int|
                0 <= i < a.len() && i < b.len() && a.take(i) == b.take(i) && #[trigger] a[i] < b[i]
        },
    decreases a.len(),
{
    if a.len() == 0 {
        assert(a.is_prefix_of(b));
    } else if b.len() > 0 {
        let a1 = a.drop_first();
        let b1 = b.drop_first();
        law_first_difference_decides(a1, b1);
        if a[0] < b[0] {
            assert(a.take(0) =~= b.take(0));
        } else if a[0] == b[0] {
            if a1.is_prefix_of(b1) {
                assert forall|i: int| 0 <= i < a.len() implies a[i] == b[i] by {
                    if i > 0 {
                        assert(a1[i - 1] == b1[i - 1]);
                    }
                }
                assert(a =~= b.take(a.len() as int));
                assert(a.is_prefix_of(b));
            }
            if a.is_prefix_of(b) {
                assert forall|i: int| 0 <= i < a1.len() implies a1[i] == b1[i] by {
                    assert(a[i + 1] == b[i + 1]);
                }
                assert(a1 =~= b1.take(a1.len() as int));
                assert(a1.is_prefix_of(b1));
            }
            if exists|i: int|
                0 <= i < a1.len() && i < b1.len() && a1.take(i) == b1.take(i) && #[trigger] a1[i]
                    < b1[i] {
                let i = choose|i: int|
                    0 <= i < a1.len() && i < b1.len() && a1.take(i) == b1.take(i)
                        && #[trigger] a1[i] < b1[i];
                assert forall|k: int| 0 <= k < i + 1 implies a[k] == b[k] by {
                    if k > 0 {
                        assert(a1.take(i)[k - 1] == b1.take(i)[k - 1]);
                    }
                }
                assert(a.take(i + 1) =~= b.take(i + 1));
                assert(a[i + 1] < b[i + 1]);
            }
            if exists|i: int|
                0 <= i < a.len() && i < b.len() && a.take(i) == b.take(i) && #[trigger] a[i]
                    < b[i] {
                let i = choose|i: int|
                    0 <= i < a.len() && i < b.len() && a.take(i) == b.take(i) && #[trigger] a[i]
                        < b[i];
                assert forall|k: int| 0 <= k < i - 1 implies a1[k] == b1[k] by {
                    assert(a.take(i)[k + 1] == b.take(i)[k + 1]);
                }
                assert(a1.take(i - 1) =~= b1.take(i - 1));
                assert(a1[i - 1] < b1[i - 1]);
            }
        } else {
            assert forall|i: int| 0 <= i && a.take(i) == b.take(i) && i < a.len() && i < b.len()
                implies !(#[trigger] a[i] < b[i]) by {
                if i > 0 {
                    assert(a.take(i)[0] == b.take(i)[0]);
                }
            }
            assert(!a.is_prefix_of(b));
        }
    } else {
        assert(!a.is_prefix_of(b));
    }
}

/// In an ascending list, no later text is smaller.
pub proof fn law_later_texts_are_not_smaller(texts: Seq<Seq<char>>, i: int, j: int)
    requires
        ascending(texts),
        0 <= i < j < texts.len(),
    ensures
        texts[i].is_prefix_of(texts[j]) || exists|k: int|
            0 <= k < texts[i].len() && k < texts[j].len() && texts[i].take(k) == texts[j].take(k)
                && #[trigger] texts[i][k] < texts[j][k],
{
    law_first_difference_decides(texts[i], texts[j]);
}

} // verus!
