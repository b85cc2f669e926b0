//! Ordering of loaded records by name, as `str` orders strings.
use vstd::prelude::*;

use crate::data::{Item, Npc, Page};
use crate::text::chars_of;

verus! {

broadcast use vstd::string::group_string_axioms;

/// `a` comes before `b` in the order of `str`: at the first difference the smaller
/// character wins, and a proper prefix comes first.
pub open spec fn str_less(a: Seq<char>, b: Seq<char>) -> bool
    decreases a.len(),
{
    if a.len() == 0 {
        b.len() > 0
    } else if b.len() == 0 {
        false
    } else if a[0] != b[0] {
        a[0] < b[0]
    } else {
        str_less(a.drop_first(), b.drop_first())
    }
}

/// No string comes before itself.
pub proof fn lemma_str_less_irreflexive(a: Seq<char>)
    ensures
        !str_less(a, a),
    decreases a.len(),
{
    if a.len() > 0 {
        lemma_str_less_irreflexive(a.drop_first());
    }
}

/// The order is transitive.
pub proof fn lemma_str_less_transitive(a: Seq<char>, b: Seq<char>, c: Seq<char>)
    requires
        str_less(a, b),
        str_less(b, c),
    ensures
        str_less(a, c),
    decreases a.len(),
{
    if a.len() > 0 && b.len() > 0 && c.len() > 0 && a[0] == b[0] && b[0] == c[0] {
        lemma_str_less_transitive(a.drop_first(), b.drop_first(), c.drop_first());
    }
}

/// Of two different strings, one comes first.
pub proof fn lemma_str_less_total(a: Seq<char>, b: Seq<char>)
    ensures
        a == b || str_less(a, b) || str_less(b, a),
    decreases a.len(),
{
    if a.len() > 0 && b.len() > 0 && a[0] == b[0] {
        lemma_str_less_total(a.drop_first(), b.drop_first());
        if a.drop_first() == b.drop_first() {
            assert(a =~= seq![a[0]] + a.drop_first());
            assert(b =~= seq![b[0]] + b.drop_first());
        }
    }
    if a.len() == 0 && b.len() == 0 {
        assert(a =~= b);
    }
}

/// The order of strings is that of their first differing character: when `a` and `b` agree
/// on their first `i` characters and differ at `i`, `a` comes first exactly when its
/// character there is the smaller code point.
pub proof fn law_str_order_first_difference(a: Seq<char>, b: Seq<char>, i: int)
    requires
        0 <= i < a.len(),
        i < b.len(),
        a.take(i) == b.take(i),
        a[i] != b[i],
    ensures
        str_less(a, b) == (a[i] < b[i]),
        str_less(b, a) == (b[i] < a[i]),
    decreases i,
{
    if i > 0 {
        assert(a.take(i)[0] == b.take(i)[0]);
        assert(a.take(i)[0] == a[0] && b.take(i)[0] == b[0]);
        assert(a.drop_first()[i - 1] == a[i] && b.drop_first()[i - 1] == b[i]);
        assert(a.drop_first().take(i - 1) =~= a.take(i).drop_first());
        assert(b.drop_first().take(i - 1) =~= b.take(i).drop_first());
        law_str_order_first_difference(a.drop_first(), b.drop_first(), i - 1);
    }
}

/// A proper prefix comes before the string it begins.
pub proof fn law_str_order_prefix_first(a: Seq<char>, b: Seq<char>)
    requires
        a.len() < b.len(),
        a == b.take(a.len() as int),
    ensures
        str_less(a, b),
        !str_less(b, a),
    decreases a.len(),
{
    if a.len() > 0 {
        assert(a[0] == b.take(a.len() as int)[0]);
        assert(a.drop_first() =~= b.drop_first().take(a.len() - 1));
        law_str_order_prefix_first(a.drop_first(), b.drop_first());
    }
}

/// Records that are ordered by a name.
pub trait Named {
    /// The name the record is ordered by.
    spec fn sort_name(&self) -> Seq<char>;

    /// The name the record is ordered by.
    fn name_str(&self) -> (r: &str)
        ensures
            r@ == self.sort_name(),
    ;
}

impl Named for Item {
    open spec fn sort_name(&self) -> Seq<char> {
        self.name@
    }

    fn name_str(&self) -> (r: &str) {
        self.name.as_str()
    }
}

impl Named for Npc {
    open spec fn sort_name(&self) -> Seq<char> {
        self.name@
    }

    fn name_str(&self) -> (r: &str) {
        self.name.as_str()
    }
}

impl Named for Page {
    open spec fn sort_name(&self) -> Seq<char> {
        self.title@
    }

    fn name_str(&self) -> (r: &str) {
        self.title.as_str()
    }
}

/// The names of `s` never decrease.
pub open spec fn sorted_by_name<T: Named>(s: Seq<T>) -> bool {
    forall|a: int, b: int|
        0 <= a < b < s.len() ==> !str_less((#[trigger] s[b]).sort_name(), (#[trigger] s[a]).sort_name())
}

/// `p` takes each position of `out` to the position in `inp` of the record found there,
/// one for one, keeping records of equal name in their order in `inp`.
pub open spec fn stable_permutation<T: Named>(out: Seq<T>, inp: Seq<T>, p: Seq<int>) -> bool {
    &&& p.len() == out.len() == inp.len()
    &&& forall|k: int| 0 <= k < p.len() ==> 0 <= #[trigger] p[k] < inp.len()
    &&& forall|a: int, b: int| 0 <= a < b < p.len() ==> #[trigger] p[a] != #[trigger] p[b]
    &&& forall|k: int| 0 <= k < p.len() ==> out[k] == inp[#[trigger] p[k]]
    &&& forall|a: int, b: int|
        0 <= a < b < p.len() && (#[trigger] out[a]).sort_name() == (#[trigger] out[b]).sort_name()
            ==> p[a] < p[b]
}

/// `out` is `inp` stably sorted by name.
pub open spec fn stably_sorted<T: Named>(out: Seq<T>, inp: Seq<T>) -> bool {
    &&& sorted_by_name(out)
    &&& exists|p: Seq<int>| stable_permutation(out, inp, p)
}

/// Whether `a` comes before `b`.
pub fn str_lt(a: &str, b: &str) -> (r: bool)
    ensures
        r == str_less(a@, b@),
{
    let x = chars_of(a);
    let y = chars_of(b);
    let mut i: usize = 0;
    assert(x@.skip(0) =~= x@);
    assert(y@.skip(0) =~= y@);
    while i < x.len() && i < y.len() && x[i] == y[i]
        invariant
            i <= x.len(),
            i <= y.len(),
            str_less(x@.skip(i as int), y@.skip(i as int)) == str_less(x@, y@),
        decreases x.len() - i,
    {
        assert(x@.skip(i as int).drop_first() =~= x@.skip(i + 1));
        assert(y@.skip(i as int).drop_first() =~= y@.skip(i + 1));
        i = i + 1;
    }
    if i == x.len() {
        i < y.len()
    } else if i == y.len() {
        false
    } else {
        x[i] < y[i]
    }
}

/// Sorts records by name, stably: records of equal name keep their order.
pub fn sort_by_name<T: Named>(v: Vec<T>) -> (r: Vec<T>)
    ensures
        stably_sorted(r@, v@),
{
    let ghost inp = v@;
    let mut rest = v;
    let mut out: Vec<T> = Vec::new();
    let ghost mut p: Seq<int> = Seq::empty();
    let n = rest.len();
    let mut i: usize = 0;
    while i < n
        invariant
            n == inp.len(),
            i <= n,
            rest@ == inp.skip(i as int),
            out@.len() == i,
            p.len() == i,
            sorted_by_name(out@),
            forall|k: int| 0 <= k < i ==> 0 <= #[trigger] p[k] < i,
            forall|a: int, b: int| 0 <= a < b < i ==> #[trigger] p[a] != #[trigger] p[b],
            forall|k: int| 0 <= k < i ==> out@[k] == inp[#[trigger] p[k]],
            forall|a: int, b: int|
                0 <= a < b < i && (#[trigger] out@[a]).sort_name() == (#[trigger] out@[b]).sort_name()
                    ==> p[a] < p[b],
        decreases n - i,
    {
        assert(rest@[0] == inp[i as int]);
        let x = rest.remove(0);
        assert(rest@ =~= inp.skip(i + 1));
        let ghost xn = x.sort_name();
        // the first position whose name comes after x's
        let mut j: usize = 0;
        while j < out.len() && !str_lt(x.name_str(), out[j].name_str())
            invariant
                j <= out.len(),
                xn == x.sort_name(),
                forall|m: int| 0 <= m < j ==> !str_less(xn, (#[trigger] out@[m]).sort_name()),
            decreases out.len() - j,
        {
            j = j + 1;
        }
        let ghost old_out = out@;
        proof {
            // every record from j on comes after x
            assert forall|m: int| j <= m < old_out.len() implies str_less(
                xn,
                (#[trigger] old_out[m]).sort_name(),
            ) by {
                let y = old_out[j as int].sort_name();
                let z = old_out[m].sort_name();
                assert(str_less(xn, y));
                if m > j {
                    assert(!str_less(z, y));
                    lemma_str_less_total(y, z);
                    if str_less(y, z) {
                        lemma_str_less_transitive(xn, y, z);
                    }
                }
            }
        }
        out.insert(j, x);
        proof {
            let old_p = p;
            p = p.insert(j as int, i as int);
            let o = out@;
            assert(o =~= old_out.insert(j as int, inp[i as int]));
            assert forall|k: int| 0 <= k < i + 1 implies o[k] == inp[#[trigger] p[k]] by {
                if k < j {
                    assert(p[k] == old_p[k]);
                } else if k > j {
                    assert(p[k] == old_p[k - 1]);
                }
            }
            assert forall|a: int, b: int| 0 <= a < b < i + 1 implies #[trigger] p[a]
                != #[trigger] p[b] by {
                if a < j && b > j {
                    assert(p[b] == old_p[b - 1]);
                } else if a > j {
                    assert(p[a] == old_p[a - 1]);
                    assert(p[b] == old_p[b - 1]);
                }
            }
            assert forall|k: int| 0 <= k < i + 1 implies 0 <= #[trigger] p[k] < i + 1 by {
                if k > j {
                    assert(p[k] == old_p[k - 1]);
                }
            }
            assert forall|a: int, b: int| 0 <= a < b < i + 1 implies !str_less(
                (#[trigger] o[b]).sort_name(),
                (#[trigger] o[a]).sort_name(),
            ) by {
                if b == j {
                    assert(o[a] == old_out[a]);
                } else if a == j {
                    assert(o[b] == old_out[b - 1]);
                    assert(str_less(xn, old_out[b - 1].sort_name()));
                    if str_less(o[b].sort_name(), xn) {
                        lemma_str_less_transitive(o[b].sort_name(), xn, o[b].sort_name());
                        lemma_str_less_irreflexive(o[b].sort_name());
                    }
                } else if a < j && b > j {
                    assert(o[a] == old_out[a]);
                    assert(o[b] == old_out[b - 1]);
                } else if a > j {
                    assert(o[a] == old_out[a - 1]);
                    assert(o[b] == old_out[b - 1]);
                } else {
                    assert(o[a] == old_out[a]);
                    assert(o[b] == old_out[b]);
                }
            }
            assert forall|a: int, b: int|
                0 <= a < b < i + 1 && (#[trigger] o[a]).sort_name() == (#[trigger] o[b]).sort_name()
                    implies p[a] < p[b] by {
                if b == j {
                    assert(p[a] == old_p[a]);
                } else if a == j {
                    assert(o[b] == old_out[b - 1]);
                    lemma_str_less_irreflexive(xn);
                } else if a < j && b > j {
                    assert(o[a] == old_out[a]);
                    assert(o[b] == old_out[b - 1]);
                    assert(p[a] == old_p[a]);
                    assert(p[b] == old_p[b - 1]);
                } else if a > j {
                    assert(o[a] == old_out[a - 1]);
                    assert(o[b] == old_out[b - 1]);
                    assert(p[a] == old_p[a - 1]);
                    assert(p[b] == old_p[b - 1]);
                } else {
                    assert(o[a] == old_out[a]);
                    assert(o[b] == old_out[b]);
                    assert(p[a] == old_p[a]);
                    assert(p[b] == old_p[b]);
                }
            }
        }
        i = i + 1;
    }
    assert(stable_permutation(out@, inp, p));
    out
}

/// Items ordered by name, stably.
pub fn sort_items(items: Vec<Item>) -> (r: Vec<Item>)
    ensures
        stably_sorted(r@, items@),
{
    sort_by_name(items)
}

/// NPCs ordered by name, stably.
pub fn sort_npcs(npcs: Vec<Npc>) -> (r: Vec<Npc>)
    ensures
        stably_sorted(r@, npcs@),
{
    sort_by_name(npcs)
}

/// Pages ordered by title, stably.
pub fn sort_pages(pages: Vec<Page>) -> (r: Vec<Page>)
    ensures
        stably_sorted(r@, pages@),
{
    sort_by_name(pages)
}

} // verus!
