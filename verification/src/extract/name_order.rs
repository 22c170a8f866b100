//! Putting file names in order.
use crate::cfxpack::files::name_views;
use crate::text::letters;
use vstd::multiset::Multiset;
use vstd::prelude::*;

verus! {

/// Whether `a` does not come after `b`, character by character.
pub open spec fn text_leq(a: Seq<char>, b: Seq<char>) -> bool
    decreases a.len(),
{
    a.len() == 0 || (b.len() > 0 && (a[0] < b[0] || (a[0] == b[0] && text_leq(
        a.drop_first(),
        b.drop_first(),
    ))))
}

/// Whether no name comes after one behind it.
pub open spec fn names_sorted(names: Seq<Seq<char>>) -> bool {
    forall|i: int, j: int|
        0 <= i < j < names.len() ==> text_leq(#[trigger] names[i], #[trigger] names[j])
}

proof fn lemma_leq_total(a: Seq<char>, b: Seq<char>)
    ensures
        text_leq(a, b) || text_leq(b, a),
        text_leq(a, b) && text_leq(b, a) ==> a == b,
    decreases a.len(),
{
    if a.len() > 0 && b.len() > 0 && a[0] == b[0] {
        lemma_leq_total(a.drop_first(), b.drop_first());
        if a.drop_first() == b.drop_first() {
            assert(a =~= seq![a[0]] + a.drop_first());
            assert(b =~= seq![b[0]] + b.drop_first());
        }
    } else if a.len() == 0 && b.len() == 0 {
        assert(a =~= b);
    }
}

proof fn lemma_leq_trans(a: Seq<char>, b: Seq<char>, c: Seq<char>)
    requires
        text_leq(a, b),
        text_leq(b, c),
    ensures
        text_leq(a, c),
    decreases a.len(),
{
    if a.len() > 0 && a[0] == b[0] && b[0] == c[0] {
        lemma_leq_trans(a.drop_first(), b.drop_first(), c.drop_first());
    }
}

/// Names in order are the only ones in order that occur as often.
pub proof fn law_order_unique(x: Seq<Seq<char>>, y: Seq<Seq<char>>)
    requires
        names_sorted(x),
        names_sorted(y),
        x.to_multiset() == y.to_multiset(),
    ensures
        x == y,
    decreases x.len(),
{
    broadcast use vstd::seq_lib::group_to_multiset_ensures;

    assert(x.len() == x.to_multiset().len() && y.len() == y.to_multiset().len());
    if x.len() > 0 {
        assert(x.contains(x[0]) && y.contains(y[0]));
        assert(x.to_multiset().count(y[0]) > 0 && y.to_multiset().count(x[0]) > 0);
        assert(x.contains(y[0]) && y.contains(x[0]));
        let i = choose|i: int| 0 <= i < x.len() && x[i] == y[0];
        let j = choose|j: int| 0 <= j < y.len() && y[j] == x[0];
        lemma_leq_total(x[0], x[0]);
        assert(text_leq(x[0], y[0]));
        assert(text_leq(y[0], x[0]));
        lemma_leq_total(x[0], y[0]);
        assert(x.remove(0) =~= x.drop_first());
        assert(y.remove(0) =~= y.drop_first());
        assert(x.drop_first().to_multiset() == y.drop_first().to_multiset());
        assert(names_sorted(x.drop_first()));
        assert(names_sorted(y.drop_first()));
        law_order_unique(x.drop_first(), y.drop_first());
        assert(x =~= seq![x[0]] + x.drop_first());
        assert(y =~= seq![y[0]] + y.drop_first());
    } else {
        assert(x =~= y);
    }
}

/// Whether `a` does not come after `b`.
fn is_leq(a: &[char], b: &[char]) -> (r: bool)
    ensures
        r == text_leq(a@, b@),
{
    let mut i: usize = 0;
    proof {
        assert(a@.skip(0) =~= a@);
        assert(b@.skip(0) =~= b@);
    }
    while i < a.len()
        invariant
            i <= a@.len(),
            i <= b@.len(),
            text_leq(a@, b@) == text_leq(a@.skip(i as int), b@.skip(i as int)),
        decreases a@.len() - i,
    {
        proof {
            assert(a@.skip(i as int).drop_first() =~= a@.skip(i + 1));
            if i < b@.len() {
                assert(b@.skip(i as int).drop_first() =~= b@.skip(i + 1));
            }
        }
        if i >= b.len() {
            return false;
        }
        if a[i] < b[i] {
            return true;
        }
        if a[i] != b[i] {
            return false;
        }
        i += 1;
    }
    true
}

/// Where a name goes among names in order.
fn place_of(names: &Vec<String>, name: &str) -> (r: usize)
    ensures
        r <= names@.len(),
        forall|i: int| 0 <= i < r ==> text_leq((#[trigger] names@[i])@, name@),
        r < names@.len() ==> text_leq(name@, names@[r as int]@),
{
    let wanted = letters(name);
    let mut i: usize = 0;
    while i < names.len()
        invariant
            i <= names@.len(),
            wanted@ == name@,
            forall|k: int| 0 <= k < i ==> text_leq((#[trigger] names@[k])@, name@),
        decreases names@.len() - i,
    {
        let other = letters(names[i].as_str());
        proof {
            lemma_leq_total(other@, wanted@);
        }
        if is_leq(wanted.as_slice(), other.as_slice()) {
            return i;
        }
        i += 1;
    }
    i
}

proof fn lemma_placed(names: Seq<Seq<char>>, at: int, name: Seq<char>)
    requires
        names_sorted(names),
        0 <= at <= names.len(),
        forall|i: int| 0 <= i < at ==> text_leq(#[trigger] names[i], name),
        at < names.len() ==> text_leq(name, names[at]),
    ensures
        names_sorted(names.insert(at, name)),
{
    let all = names.insert(at, name);
    assert forall|i: int, j: int| 0 <= i < j < all.len() implies text_leq(
        #[trigger] all[i],
        #[trigger] all[j],
    ) by {
        if i == at {
            if j - 1 > at {
                lemma_leq_trans(name, names[at], names[j - 1]);
            }
        } else if i < at && j < at {
            assert(text_leq(names[i], names[j]));
        } else if i < at && j > at {
            assert(text_leq(names[i], names[j - 1]));
        } else if i > at {
            assert(text_leq(names[i - 1], names[j - 1]));
        }
    }
}

/// The names in order.
pub fn sort_names(names: Vec<String>) -> (r: Vec<String>)
    ensures
        names_sorted(name_views(r@)),
        name_views(r@).to_multiset() == name_views(names@).to_multiset(),
{
    let ghost all = name_views(names@);
    let mut rest: Vec<String> = names;
    let mut out: Vec<String> = Vec::new();
    proof {
        assert(name_views(out@) =~= Seq::empty());
        assert(all.to_multiset() =~= name_views(out@).to_multiset().add(all.to_multiset())) by {
            broadcast use vstd::seq_lib::group_to_multiset_ensures;
            assert(name_views(out@).to_multiset() =~= Multiset::empty());
        }
    }
    while rest.len() > 0
        invariant
            names_sorted(name_views(out@)),
            all.to_multiset() == name_views(out@).to_multiset().add(
                name_views(rest@).to_multiset(),
            ),
        decreases rest@.len(),
    {
        let ghost left = name_views(rest@);
        let ghost done = name_views(out@);
        match rest.pop() {
            Some(name) => {
                let at = place_of(&out, name.as_str());
                let ghost text = name@;
                proof {
                    assert forall|i: int| 0 <= i < at implies text_leq(
                        #[trigger] done[i],
                        text,
                    ) by {
                        assert(text_leq(out@[i]@, text));
                    }
                    lemma_placed(done, at as int, text);
                }
                out.insert(at, name);
                proof {
                    broadcast use vstd::seq_lib::group_to_multiset_ensures;

                    assert(name_views(out@) =~= done.insert(at as int, text));
                    assert(left =~= name_views(rest@).push(text));
                    assert(done.insert(at as int, text).to_multiset()
                        == done.to_multiset().insert(text));
                    assert(left.to_multiset() == name_views(rest@).to_multiset().insert(text));
                    assert(done.to_multiset().insert(text).add(name_views(rest@).to_multiset())
                        =~= done.to_multiset().add(left.to_multiset()));
                }
            },
            None => {
                return out;
            },
        }
    }
    proof {
        assert(name_views(rest@) =~= Seq::empty());
        assert(name_views(out@).to_multiset() =~= all.to_multiset()) by {
            broadcast use vstd::seq_lib::group_to_multiset_ensures;
            assert(name_views(rest@).to_multiset() =~= Multiset::empty());
        }
    }
    out
}

} // verus!
