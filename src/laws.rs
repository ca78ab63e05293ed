//! Properties of the store that relate several operations.
use vstd::prelude::*;
use crate::record::{ItemView, fits_item, reread, plain_field, fits_line};
use crate::text::drop_cr;
use crate::store::{
    FormatError, load_spec, text_of, file_after_load, file_text, new_item, default_category, lines_of,
    parse_lines, lemma_file_lines_text, lemma_parse_lines_of, lemma_loaded_fit,
};
use crate::query::{
    NoEntries, all_spec, latest_spec, sorted_by_date, sort_by_date_spec, in_category, text_le,
    insert_by_date,
    lemma_sort_sorted, lemma_sort_multiset,
};

verus! {

/// The entries as they read back from store text.
pub open spec fn reread_all(rs: Seq<ItemView>) -> Seq<ItemView> {
    rs.map_values(|r: ItemView| reread(r))
}

/// Entries with no comma or line feed in their fields, written out as store
/// text, read back in the same order and each the same, except that a
/// category ending in a carriage return loses it, as every line is ended by
/// a line feed. So entries whose categories do not end in one read back
/// exactly.
pub proof fn lemma_store_round_trip(rs: Seq<ItemView>)
    requires
        forall|k: int| 0 <= k < rs.len() ==> fits_item(#[trigger] rs[k]),
    ensures
        load_spec(Some(text_of(rs))) == Ok::<Seq<ItemView>, FormatError>(reread_all(rs)),
        (forall|k: int| 0 <= k < rs.len() ==> drop_cr(#[trigger] rs[k].category) == rs[k].category)
            ==> load_spec(Some(text_of(rs))) == Ok::<Seq<ItemView>, FormatError>(rs),
{
    let back = reread_all(rs);
    lemma_file_lines_text(rs);
    assert forall|k: int| 0 <= k < back.len() implies fits_item(#[trigger] back[k]) by {
        let r = rs[k];
        let c = r.category;
        if c.len() > 0 && c.last() == '\r' {
            let d = c.drop_last();
            if d.contains(',') || d.contains('\n') {
                let j = choose|j: int| 0 <= j < d.len() && (d[j] == ',' || d[j] == '\n');
                assert(c[j] == d[j]);
            }
        }
    }
    lemma_parse_lines_of(back);
    let ls = lines_of(back).push(Seq::empty());
    assert(ls.drop_last() =~= lines_of(back));
    assert(parse_lines(ls) == parse_lines(lines_of(back)));
    if forall|k: int| 0 <= k < rs.len() ==> drop_cr(#[trigger] rs[k].category) == rs[k].category {
        assert(back =~= rs);
    }
}

/// A store that loads, written back as text, loads as the same entries,
/// but for one carriage return lost from the end of a category.
pub proof fn lemma_reload(contents: Option<Seq<char>>, s: Seq<ItemView>)
    requires
        load_spec(contents) == Ok::<Seq<ItemView>, FormatError>(s),
    ensures
        load_spec(Some(text_of(s))) == Ok::<Seq<ItemView>, FormatError>(reread_all(s)),
{
    lemma_loaded_fit(contents, s);
    lemma_store_round_trip(s);
}

/// Loading twice in a row gives the same result both times: the first load
/// leaves the file (created empty if it was missing) as the second reads it.
pub proof fn lemma_load_idempotent(contents: Option<Seq<char>>)
    ensures
        load_spec(file_after_load(contents)) == load_spec(contents),
        file_after_load(file_after_load(contents)) == file_after_load(contents),
{
}

/// All entries come out with dates in non-decreasing string order, and they
/// are exactly the stored entries, each as often as it is stored.
pub proof fn lemma_all_ordered(s: Seq<ItemView>)
    ensures
        all_spec(s) matches Ok(v) ==> sorted_by_date(v) && v.to_multiset() == s.to_multiset(),
{
    lemma_sort_sorted(s);
    lemma_sort_multiset(s);
}

/// An entry of a non-empty store is among the entries `latest` gives for
/// category `c` exactly when it is filed under `c`; and nothing else is.
pub proof fn lemma_category_filter(s: Seq<ItemView>, c: Seq<char>, r: ItemView)
    requires
        s.len() > 0,
    ensures
        latest_spec(s, Some(c)) matches Ok(v) && (v.contains(r) <==> (s.contains(r) && r.category == c)),
{
    broadcast use vstd::seq_lib::group_to_multiset_ensures;
    let t = sort_by_date_spec(s);
    let pred = |x: ItemView| x.category == c;
    let v = in_category(t, c);
    lemma_sort_multiset(s);
    if v.contains(r) {
        t.lemma_filter_contains_rev(pred, r);
        let i = choose|i: int| 0 <= i < v.len() && v[i] == r;
        t.lemma_filter_pred(pred, i);
        assert(t.to_multiset().count(r) > 0);
    }
    if s.contains(r) && r.category == c {
        assert(s.to_multiset().count(r) > 0);
        assert(t.contains(r));
        let i = choose|i: int| 0 <= i < t.len() && t[i] == r;
        t.lemma_filter_contains(pred, i);
    }
}

/// An empty or missing store file loads as no entries, and both queries
/// then report `NoEntries` rather than an empty result.
pub proof fn lemma_empty_store(c: Option<Seq<char>>)
    ensures
        load_spec(None) == Ok::<Seq<ItemView>, FormatError>(Seq::empty()),
        load_spec(Some(Seq::empty())) == Ok::<Seq<ItemView>, FormatError>(Seq::empty()),
        all_spec(Seq::empty()) == Err::<Seq<ItemView>, NoEntries>(NoEntries),
        latest_spec(Seq::empty(), c) == Err::<Seq<ItemView>, NoEntries>(NoEntries),
{
    lemma_store_round_trip(Seq::empty());
    assert(text_of(Seq::<ItemView>::empty()) == Seq::<char>::empty());
    assert(file_text(None) == Seq::<char>::empty());
}

/// Loading a store, adding an entry without a category (its name and date
/// free of commas and line breaks, as `add` asks and its clock gives),
/// writing the store and reading all entries back gives that entry, filed
/// under `none`.
pub proof fn lemma_default_category(
    contents: Option<Seq<char>>,
    s: Seq<ItemView>,
    name: Seq<char>,
    date: Seq<char>,
)
    requires
        load_spec(contents) == Ok::<Seq<ItemView>, FormatError>(s),
        plain_field(name),
        plain_field(date),
    ensures
        ({
            let added = s.push(new_item(name, date, None));
            &&& load_spec(Some(text_of(added))) == Ok::<Seq<ItemView>, FormatError>(reread_all(added))
            &&& all_spec(reread_all(added)) matches Ok(v) && v.contains(new_item(name, date, None))
            &&& new_item(name, date, None).category == default_category()
        }),
{
    broadcast use vstd::seq_lib::group_to_multiset_ensures;
    lemma_loaded_fit(contents, s);
    let x = new_item(name, date, None);
    let added = s.push(x);
    assert forall|k: int| 0 <= k < added.len() implies fits_item(#[trigger] added[k]) by {
        if k < s.len() {
            assert(added[k] == s[k]);
        } else {
            assert(added[k] == x);
            assert(fits_line(default_category())) by {
                if default_category().contains(',') || default_category().contains('\n') {
                    let i = choose|i: int| 0 <= i < 4 && (default_category()[i] == ',' || default_category()[i] == '\n');
                }
            }
        }
    }
    lemma_store_round_trip(added);
    let back = reread_all(added);
    lemma_sort_multiset(back);
    assert(added[added.len() - 1] == x);
    assert(drop_cr(default_category()) == default_category());
    assert(back[back.len() - 1] == x);
    assert(back.contains(x));
    assert(sort_by_date_spec(back).to_multiset().count(x) > 0);
}

/// Two entries added to an empty store, the first dated no later than the
/// second, are written out, read back and listed by `all` in the order they
/// were added, each exactly as added.
pub proof fn lemma_two_adds_in_order(
    n1: Seq<char>,
    d1: Seq<char>,
    c1: Option<Seq<char>>,
    n2: Seq<char>,
    d2: Seq<char>,
    c2: Option<Seq<char>>,
)
    requires
        plain_field(n1),
        plain_field(d1),
        c1 matches Some(c) ==> plain_field(c),
        plain_field(n2),
        plain_field(d2),
        c2 matches Some(c) ==> plain_field(c),
        text_le(d1, d2),
    ensures
        ({
            let added = seq![new_item(n1, d1, c1), new_item(n2, d2, c2)];
            &&& load_spec(Some(text_of(added))) == Ok::<Seq<ItemView>, FormatError>(added)
            &&& all_spec(added) == Ok::<Seq<ItemView>, NoEntries>(added)
        }),
{
    let x1 = new_item(n1, d1, c1);
    let x2 = new_item(n2, d2, c2);
    let added = seq![x1, x2];
    assert(fits_line(default_category()) && drop_cr(default_category()) == default_category()) by {
        if default_category().contains(',') || default_category().contains('\n') {
            let i = choose|i: int| 0 <= i < 4 && (default_category()[i] == ',' || default_category()[i] == '\n');
        }
    }
    assert forall|c: Seq<char>| plain_field(c) implies drop_cr(c) == c by {
        if c.len() > 0 && c.last() == '\r' {
            assert(c[c.len() - 1] == '\r');
        }
    }
    assert(fits_item(added[0]) && fits_item(added[1]));
    assert(drop_cr(added[0].category) == added[0].category);
    assert(drop_cr(added[1].category) == added[1].category);
    lemma_store_round_trip(added);
    let one = seq![x1];
    assert(added.drop_last() =~= one);
    assert(one.drop_last() =~= Seq::<ItemView>::empty());
    assert(one.last() == x1);
    assert(sort_by_date_spec(Seq::<ItemView>::empty()) == Seq::<ItemView>::empty());
    assert(sort_by_date_spec(one) == insert_by_date(sort_by_date_spec(one.drop_last()), x1));
    assert(sort_by_date_spec(one) == insert_by_date(Seq::empty(), x1));
    assert(sort_by_date_spec(one) =~= one);
    assert(insert_by_date(one, x2) == one.push(x2));
    assert(one.push(x2) =~= added);
    assert(added.last() == x2);
    assert(sort_by_date_spec(added) == insert_by_date(sort_by_date_spec(one), x2));
}

} // verus!
