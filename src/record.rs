//! A journal entry and its one-line text form `name,date,category`.
use vstd::prelude::*;
use crate::text::{split, split_on, drop_cr, lemma_split_append_plain};

verus! {

/// One journal entry.
#[derive(Debug)]
pub struct Item {
    pub name: String,
    /// An RFC 3339 timestamp, set when the entry is added.
    pub date: String,
    pub category: String,
}

/// What an entry holds, as character sequences.
pub struct ItemView {
    pub name: Seq<char>,
    pub date: Seq<char>,
    pub category: Seq<char>,
}

impl View for Item {
    type V = ItemView;

    open spec fn view(&self) -> ItemView {
        ItemView { name: self.name@, date: self.date@, category: self.category@ }
    }
}

/// The entries' views, in order.
pub open spec fn view_all(s: Seq<Item>) -> Seq<ItemView> {
    s.map_values(|i: Item| i@)
}

/// An optional string as an optional character sequence.
pub open spec fn opt_view(c: Option<&str>) -> Option<Seq<char>> {
    match c {
        Some(s) => Some(s@),
        None => None,
    }
}

/// The line that stores an entry: its fields joined by commas.
pub open spec fn line_of(r: ItemView) -> Seq<char> {
    r.name + seq![','] + r.date + seq![','] + r.category
}

/// The entry that a line holds: exactly three comma-separated fields.
pub open spec fn parse_line(l: Seq<char>) -> Option<ItemView> {
    let f = split(l, ',');
    if f.len() == 3 {
        Some(ItemView { name: f[0], date: f[1], category: f[2] })
    } else {
        None
    }
}

/// A field that stays within its line and its place on it: no comma and no
/// line feed.
pub open spec fn fits_line(f: Seq<char>) -> bool {
    !f.contains(',') && !f.contains('\n')
}

/// A field free of commas and line breaks (line feed or carriage return):
/// what a new entry may hold.
pub open spec fn plain_field(f: Seq<char>) -> bool {
    fits_line(f) && !f.contains('\r')
}

/// An entry whose fields all stay within their place on a line.
pub open spec fn fits_item(r: ItemView) -> bool {
    fits_line(r.name) && fits_line(r.date) && fits_line(r.category)
}

/// What an entry reads back as from the line that stores it, with a line
/// feed after it: the same, except that one carriage return at the end of
/// the category is lost.
pub open spec fn reread(r: ItemView) -> ItemView {
    ItemView { name: r.name, date: r.date, category: drop_cr(r.category) }
}

impl Item {
    pub fn new(name: &str, date: &str, category: &str) -> (r: Item)
        ensures
            r@ == (ItemView { name: name@, date: date@, category: category@ }),
    {
        Item {
            name: String::from_str(name),
            date: String::from_str(date),
            category: String::from_str(category),
        }
    }

    /// The stored line of this entry, `name,date,category`.
    pub fn to_string(&self) -> (r: String)
        ensures
            r@ == line_of(self@),
    {
        let mut s = String::from_str(self.name.as_str());
        s.append(",");
        s.append(self.date.as_str());
        s.append(",");
        s.append(self.category.as_str());
        proof {
            reveal_strlit(",");
        }
        s
    }

    /// Reads an entry from one line; `None` unless the line has exactly
    /// three comma-separated fields.
    pub fn from_line(line: &str) -> (r: Option<Item>)
        ensures
            r matches Some(i) <==> parse_line(line@) is Some,
            r matches Some(i) ==> i@ == parse_line(line@)->Some_0,
    {
        let mut fields = split_on(line, ',');
        if fields.len() == 3 {
            let category = fields.pop().unwrap();
            let date = fields.pop().unwrap();
            let name = fields.pop().unwrap();
            Some(Item { name, date, category })
        } else {
            None
        }
    }
}

impl PartialEq for Item {
    fn eq(&self, other: &Item) -> (r: bool) {
        self.name == other.name && self.date == other.date && self.category == other.category
    }
}

impl vstd::std_specs::cmp::PartialEqSpecImpl for Item {
    open spec fn obeys_eq_spec() -> bool {
        true
    }

    open spec fn eq_spec(&self, other: &Item) -> bool {
        self@ == other@
    }
}

/// A line made of plain fields reads back as the entry it was made from.
pub proof fn lemma_line_round_trip(r: ItemView)
    requires
        !r.name.contains(','),
        !r.date.contains(','),
        !r.category.contains(','),
    ensures
        parse_line(line_of(r)) == Some(r),
{
    let e = Seq::<char>::empty();
    let a = r.name + seq![','];
    let b = a + r.date + seq![','];
    lemma_split_append_plain(e, r.name, ',');
    assert(e + r.name =~= r.name);
    assert(split(e, ',') =~= seq![e]);
    assert(split(r.name, ',') =~= seq![r.name]);
    assert(a.drop_last() =~= r.name);
    assert(split(a, ',') =~= seq![r.name, e]);
    lemma_split_append_plain(a, r.date, ',');
    assert(split(a + r.date, ',') =~= seq![r.name, r.date]);
    assert(b.drop_last() =~= a + r.date);
    assert(split(b, ',') =~= seq![r.name, r.date, e]);
    lemma_split_append_plain(b, r.category, ',');
    assert(split(b + r.category, ',') =~= seq![r.name, r.date, r.category]);
    assert(line_of(r) =~= b + r.category);
}

} // verus!
