//! Date order of entries, and the two queries: all entries by date, and the
//! earliest entry or the entries of one category.
use vstd::prelude::*;
use crate::record::{Item, ItemView, view_all, opt_view};

verus! {

/// The store holds no entries at all.
#[derive(PartialEq, Eq, Structural, Debug, Clone, Copy)]
pub struct NoEntries;

/// `a` comes no later than `b` in string order (character by character).
pub open spec fn text_le(a: Seq<char>, b: Seq<char>) -> bool
    decreases a.len(),
{
    if a.len() == 0 {
        true
    } else if b.len() == 0 {
        false
    } else if a[0] != b[0] {
        a[0] < b[0]
    } else {
        text_le(a.drop_first(), b.drop_first())
    }
}

/// `x` goes into the date-ordered `t` after every entry not later than it.
pub open spec fn insert_by_date(t: Seq<ItemView>, x: ItemView) -> Seq<ItemView>
    decreases t.len(),
{
    if t.len() == 0 {
        seq![x]
    } else if text_le(t.last().date, x.date) {
        t.push(x)
    } else {
        insert_by_date(t.drop_last(), x).push(t.last())
    }
}

/// The entries ordered by date; entries of equal date keep their order.
pub open spec fn sort_by_date_spec(s: Seq<ItemView>) -> Seq<ItemView>
    decreases s.len(),
{
    if s.len() == 0 {
        s
    } else {
        insert_by_date(sort_by_date_spec(s.drop_last()), s.last())
    }
}

/// Dates never decrease along `s`.
pub open spec fn sorted_by_date(s: Seq<ItemView>) -> bool {
    forall|i: int, j: int| 0 <= i < j < s.len() ==> text_le(#[trigger] s[i].date, #[trigger] s[j].date)
}

/// The entries filed under `c`.
pub open spec fn in_category(s: Seq<ItemView>, c: Seq<char>) -> Seq<ItemView> {
    s.filter(|r: ItemView| r.category == c)
}

/// What `latest` gives: with no category the earliest entry, else the
/// category's entries by date; `NoEntries` for an empty store.
pub open spec fn latest_spec(s: Seq<ItemView>, c: Option<Seq<char>>) -> Result<Seq<ItemView>, NoEntries> {
    if s.len() == 0 {
        Err(NoEntries)
    } else {
        match c {
            None => Ok(seq![sort_by_date_spec(s)[0]]),
            Some(c) => Ok(in_category(sort_by_date_spec(s), c)),
        }
    }
}

/// What `all` gives: every entry by date; `NoEntries` for an empty store.
pub open spec fn all_spec(s: Seq<ItemView>) -> Result<Seq<ItemView>, NoEntries> {
    if s.len() == 0 {
        Err(NoEntries)
    } else {
        Ok(sort_by_date_spec(s))
    }
}

fn chars_of(s: &str) -> (r: Vec<char>)
    ensures
        r@ == s@,
{
    let mut r: Vec<char> = Vec::new();
    for c in it: s.chars()
        invariant
            it.seq() == s@,
            r@ == s@.take(it.index() as int),
    {
        r.push(c);
        proof {
            assert(r@ =~= s@.take(it.index() + 1));
        }
    }
    proof {
        assert(s@.take(s@.len() as int) =~= s@);
    }
    r
}

/// Whether date `a` comes no later than date `b`, comparing the strings.
pub fn date_le(a: &str, b: &str) -> (r: bool)
    ensures
        r == text_le(a@, b@),
{
    let x = chars_of(a);
    let y = chars_of(b);
    let mut i: usize = 0;
    proof {
        assert(x@.skip(0) =~= x@);
        assert(y@.skip(0) =~= y@);
    }
    while i < x.len() && i < y.len() && x[i] == y[i]
        invariant
            i <= x.len(),
            i <= y.len(),
            text_le(a@, b@) == text_le(x@.skip(i as int), y@.skip(i as int)),
            x@ == a@,
            y@ == b@,
        decreases x.len() - i,
    {
        proof {
            assert(x@.skip(i as int).drop_first() =~= x@.skip(i + 1));
            assert(y@.skip(i as int).drop_first() =~= y@.skip(i + 1));
        }
        i = i + 1;
    }
    if i == x.len() {
        true
    } else if i == y.len() {
        false
    } else {
        x[i] < y[i]
    }
}

fn insert_item(t: &mut Vec<Item>, x: Item)
    ensures
        view_all(final(t)@) == insert_by_date(view_all(old(t)@), x@),
{
    let ghost v = view_all(t@);
    let mut j: usize = t.len();
    proof {
        assert(v.take(j as int) =~= v);
        assert(v.skip(j as int) =~= Seq::<ItemView>::empty());
    }
    while j > 0 && !date_le(t[j - 1].date.as_str(), x.date.as_str())
        invariant
            j <= t.len(),
            v == view_all(t@),
            insert_by_date(v, x@) == insert_by_date(v.take(j as int), x@) + v.skip(j as int),
        decreases j,
    {
        proof {
            assert(v.take(j as int).drop_last() =~= v.take(j - 1));
            assert(v.take(j as int).last() == v[j - 1]);
            assert(v.skip(j - 1) =~= seq![v[j - 1]] + v.skip(j as int));
            assert(insert_by_date(v.take(j - 1), x@).push(v[j - 1]) + v.skip(j as int)
                =~= insert_by_date(v.take(j - 1), x@) + v.skip(j - 1));
        }
        j = j - 1;
    }
    t.insert(j, x);
    proof {
        if j == 0 {
            assert(v.take(0) =~= Seq::<ItemView>::empty());
        } else {
            assert(v.take(j as int).last() == v[j - 1]);
        }
        assert(view_all(t@) =~= v.take(j as int).push(x@) + v.skip(j as int));
        assert(insert_by_date(v, x@) =~= v.take(j as int).push(x@) + v.skip(j as int));
    }
}

/// The entries ordered by date, entries of equal date in their given order.
pub fn sort_by_date(items: Vec<Item>) -> (r: Vec<Item>)
    ensures
        view_all(r@) == sort_by_date_spec(view_all(items@)),
{
    let ghost s = view_all(items@);
    let mut rest = items;
    let mut out: Vec<Item> = Vec::new();
    let ghost mut i: int = 0;
    proof {
        assert(s.take(0) =~= Seq::<ItemView>::empty());
        assert(view_all(out@) =~= Seq::<ItemView>::empty());
        assert(view_all(rest@) =~= s.skip(0));
    }
    while rest.len() > 0
        invariant
            0 <= i <= s.len(),
            rest.len() == s.len() - i,
            view_all(rest@) == s.skip(i),
            view_all(out@) == sort_by_date_spec(s.take(i)),
        decreases rest.len(),
    {
        let ghost before = rest@;
        let x = rest.remove(0);
        proof {
            assert(rest@ =~= before.skip(1));
            assert forall|k: int| 0 <= k < rest.len() implies view_all(rest@)[k] == s.skip(i + 1)[k] by {
                assert(view_all(before)[k + 1] == s.skip(i)[k + 1]);
            }
            assert(s.skip(i)[0] == x@);
            assert(s.take(i + 1).drop_last() =~= s.take(i));
            assert(s.take(i + 1).last() == x@);
            assert(view_all(rest@) =~= s.skip(i + 1));
        }
        insert_item(&mut out, x);
        proof {
            i = i + 1;
        }
    }
    proof {
        assert(s.take(i) =~= s);
    }
    out
}

proof fn lemma_insert_len(t: Seq<ItemView>, x: ItemView)
    ensures
        insert_by_date(t, x).len() == t.len() + 1,
    decreases t.len(),
{
    if t.len() > 0 {
        lemma_insert_len(t.drop_last(), x);
    }
}

/// Sorting keeps the number of entries.
pub proof fn lemma_sort_len(s: Seq<ItemView>)
    ensures
        sort_by_date_spec(s).len() == s.len(),
    decreases s.len(),
{
    if s.len() > 0 {
        lemma_sort_len(s.drop_last());
        lemma_insert_len(sort_by_date_spec(s.drop_last()), s.last());
    }
}

proof fn lemma_text_le_total(a: Seq<char>, b: Seq<char>)
    ensures
        text_le(a, b) || text_le(b, a),
    decreases a.len(),
{
    if a.len() > 0 && b.len() > 0 && a[0] == b[0] {
        lemma_text_le_total(a.drop_first(), b.drop_first());
    }
}

proof fn lemma_text_le_trans(a: Seq<char>, b: Seq<char>, c: Seq<char>)
    requires
        text_le(a, b),
        text_le(b, c),
    ensures
        text_le(a, c),
    decreases a.len(),
{
    if a.len() > 0 && b.len() > 0 && c.len() > 0 && a[0] == b[0] && b[0] == c[0] {
        lemma_text_le_trans(a.drop_first(), b.drop_first(), c.drop_first());
    }
}

/// Inserting keeps what the entries are, counted with repetition.
proof fn lemma_insert_multiset(t: Seq<ItemView>, x: ItemView)
    ensures
        insert_by_date(t, x).to_multiset() == t.to_multiset().insert(x),
    decreases t.len(),
{
    broadcast use vstd::seq_lib::group_to_multiset_ensures;
    if t.len() > 0 {
        let u = t.drop_last();
        assert(t =~= u.push(t.last()));
        if !text_le(t.last().date, x.date) {
            lemma_insert_multiset(u, x);
            assert(insert_by_date(u, x).push(t.last()).to_multiset()
                =~= u.to_multiset().insert(x).insert(t.last()));
            assert(t.to_multiset() == u.to_multiset().insert(t.last()));
            assert(u.to_multiset().insert(x).insert(t.last())
                =~= u.to_multiset().insert(t.last()).insert(x));
        }
    } else {
        assert(seq![x] =~= t.push(x));
    }
}

/// Sorting keeps what the entries are, counted with repetition.
pub proof fn lemma_sort_multiset(s: Seq<ItemView>)
    ensures
        sort_by_date_spec(s).to_multiset() == s.to_multiset(),
    decreases s.len(),
{
    broadcast use vstd::seq_lib::group_to_multiset_ensures;
    if s.len() > 0 {
        lemma_sort_multiset(s.drop_last());
        lemma_insert_multiset(sort_by_date_spec(s.drop_last()), s.last());
        assert(s =~= s.drop_last().push(s.last()));
    }
}

/// Every entry of `insert_by_date(t, x)` is bounded by any bound of `t` and `x`.
proof fn lemma_insert_bounded(t: Seq<ItemView>, x: ItemView, m: Seq<char>)
    requires
        forall|k: int| 0 <= k < t.len() ==> text_le(#[trigger] t[k].date, m),
        text_le(x.date, m),
    ensures
        forall|k: int| 0 <= k < insert_by_date(t, x).len() ==> text_le(#[trigger] insert_by_date(t, x)[k].date, m),
    decreases t.len(),
{
    lemma_insert_len(t, x);
    if t.len() > 0 && !text_le(t.last().date, x.date) {
        let u = t.drop_last();
        assert forall|k: int| 0 <= k < u.len() implies text_le(#[trigger] u[k].date, m) by {
            assert(u[k] == t[k]);
        }
        lemma_insert_bounded(u, x, m);
        lemma_insert_len(u, x);
        assert(text_le(t[t.len() - 1].date, m));
    }
}

/// Inserting into a date-ordered sequence keeps it date-ordered.
proof fn lemma_insert_sorted(t: Seq<ItemView>, x: ItemView)
    requires
        sorted_by_date(t),
    ensures
        sorted_by_date(insert_by_date(t, x)),
    decreases t.len(),
{
    lemma_insert_len(t, x);
    let r = insert_by_date(t, x);
    if t.len() == 0 {
    } else if text_le(t.last().date, x.date) {
        assert forall|i: int, j: int| 0 <= i < j < r.len() implies text_le(#[trigger] r[i].date, #[trigger] r[j].date) by {
            if j == t.len() {
                if i < t.len() - 1 {
                    lemma_text_le_trans(t[i].date, t[t.len() - 1].date, x.date);
                }
            }
        }
    } else {
        let u = t.drop_last();
        let l = t.last();
        assert(sorted_by_date(u)) by {
            assert forall|i: int, j: int| 0 <= i < j < u.len() implies text_le(#[trigger] u[i].date, #[trigger] u[j].date) by {
                assert(u[i] == t[i] && u[j] == t[j]);
            }
        }
        lemma_insert_sorted(u, x);
        lemma_text_le_total(l.date, x.date);
        assert forall|k: int| 0 <= k < u.len() implies text_le(#[trigger] u[k].date, l.date) by {
            assert(u[k] == t[k]);
        }
        lemma_insert_bounded(u, x, l.date);
        lemma_insert_len(u, x);
        assert forall|i: int, j: int| 0 <= i < j < r.len() implies text_le(#[trigger] r[i].date, #[trigger] r[j].date) by {
            if j == r.len() - 1 {
                assert(r[j] == l);
                assert(r[i] == insert_by_date(u, x)[i]);
            } else {
                assert(r[i] == insert_by_date(u, x)[i]);
                assert(r[j] == insert_by_date(u, x)[j]);
            }
        }
    }
}

/// The sorted sequence is date-ordered.
pub proof fn lemma_sort_sorted(s: Seq<ItemView>)
    ensures
        sorted_by_date(sort_by_date_spec(s)),
    decreases s.len(),
{
    if s.len() > 0 {
        lemma_sort_sorted(s.drop_last());
        lemma_insert_sorted(sort_by_date_spec(s.drop_last()), s.last());
    }
}

/// The entries whose category is `c`, in the given order.
fn take_category(items: Vec<Item>, c: &str) -> (r: Vec<Item>)
    ensures
        view_all(r@) == in_category(view_all(items@), c@),
{
    let ghost s = view_all(items@);
    let cs = String::from_str(c);
    let mut rest = items;
    let mut out: Vec<Item> = Vec::new();
    let ghost mut i: int = 0;
    proof {
        reveal(Seq::filter);
        assert(s.take(0) =~= Seq::<ItemView>::empty());
        assert(view_all(out@) =~= Seq::<ItemView>::empty());
        assert(view_all(rest@) =~= s.skip(0));
    }
    while rest.len() > 0
        invariant
            0 <= i <= s.len(),
            rest.len() == s.len() - i,
            view_all(rest@) == s.skip(i),
            view_all(out@) == in_category(s.take(i), c@),
            cs@ == c@,
        decreases rest.len(),
    {
        let ghost before = rest@;
        let ghost out_before = out@;
        let x = rest.remove(0);
        proof {
            reveal(Seq::filter);
            assert(rest@ =~= before.skip(1));
            assert forall|k: int| 0 <= k < rest.len() implies view_all(rest@)[k] == s.skip(i + 1)[k] by {
                assert(view_all(before)[k + 1] == s.skip(i)[k + 1]);
            }
            assert(s.skip(i)[0] == x@);
            assert(s.take(i + 1).drop_last() =~= s.take(i));
            assert(s.take(i + 1).last() == x@);
            assert(view_all(rest@) =~= s.skip(i + 1));
        }
        if x.category == cs {
            out.push(x);
            proof {
                assert(view_all(out@) =~= view_all(out_before).push(x@));
            }
        }
        proof {
            i = i + 1;
        }
    }
    proof {
        assert(s.take(i) =~= s);
    }
    out
}

/// With no category, the earliest entry; with one, that category's entries
/// in date order (possibly none). `NoEntries` when the store is empty.
pub fn latest(items: Vec<Item>, category: Option<&str>) -> (r: Result<Vec<Item>, NoEntries>)
    ensures
        match r {
            Ok(v) => latest_spec(view_all(items@), opt_view(category)) == Ok::<Seq<ItemView>, NoEntries>(view_all(v@)),
            Err(e) => latest_spec(view_all(items@), opt_view(category)) == Err::<Seq<ItemView>, NoEntries>(e),
        },
{
    if items.len() == 0 {
        return Err(NoEntries);
    }
    let ghost s = view_all(items@);
    let mut sorted = sort_by_date(items);
    proof {
        lemma_sort_len(s);
    }
    match category {
        None => {
            let first = sorted.remove(0);
            let mut v: Vec<Item> = Vec::new();
            v.push(first);
            proof {
                assert(view_all(v@) =~= seq![sort_by_date_spec(s)[0]]);
            }
            Ok(v)
        },
        Some(c) => Ok(take_category(sorted, c)),
    }
}

/// Every entry, in date order. `NoEntries` when the store is empty.
pub fn all(items: Vec<Item>) -> (r: Result<Vec<Item>, NoEntries>)
    ensures
        match r {
            Ok(v) => all_spec(view_all(items@)) == Ok::<Seq<ItemView>, NoEntries>(view_all(v@)),
            Err(e) => all_spec(view_all(items@)) == Err::<Seq<ItemView>, NoEntries>(e),
        },
{
    if items.len() == 0 {
        return Err(NoEntries);
    }
    Ok(sort_by_date(items))
}

} // verus!
