//! The record store: the file's text read into entries, entries written back
//! as text, and new entries added.
use vstd::prelude::*;
use crate::record::{
    Item, ItemView, view_all, opt_view, line_of, parse_line, plain_field, fits_line, fits_item,
    reread, lemma_line_round_trip,
};
use crate::text::{split, split_on, drop_cr, trim_cr, lemma_split_append_plain, lemma_split_pieces};
use crate::clock::now_rfc3339;

verus! {

/// A stored line that does not hold exactly three comma-separated fields.
#[derive(PartialEq, Eq, Structural, Debug, Clone, Copy)]
pub struct FormatError {
    /// The offending line, counted from 1.
    pub line: usize,
}

/// The entries that `lines` hold, skipping empty lines; or the index (from
/// 0) of the first non-empty line that is not an entry.
pub open spec fn parse_lines(lines: Seq<Seq<char>>) -> Result<Seq<ItemView>, nat>
    decreases lines.len(),
{
    if lines.len() == 0 {
        Ok(Seq::empty())
    } else {
        match parse_lines(lines.drop_last()) {
            Err(k) => Err(k),
            Ok(rs) => {
                let l = lines.last();
                if l.len() == 0 {
                    Ok(rs)
                } else {
                    match parse_line(l) {
                        Some(r) => Ok(rs.push(r)),
                        None => Err((lines.len() - 1) as nat),
                    }
                }
            },
        }
    }
}

/// The text of the store file; a missing file reads as empty.
pub open spec fn file_text(contents: Option<Seq<char>>) -> Seq<char> {
    match contents {
        Some(t) => t,
        None => Seq::empty(),
    }
}

/// The lines of a text: the pieces between line feeds, where a piece that
/// a line feed ends loses one carriage return before it (a CR LF line end).
pub open spec fn file_lines(t: Seq<char>) -> Seq<Seq<char>> {
    let p = split(t, '\n');
    Seq::new(p.len(), |k: int| if k + 1 < p.len() { drop_cr(p[k]) } else { p[k] })
}

/// The store file after a load: a missing file has been created empty.
pub open spec fn file_after_load(contents: Option<Seq<char>>) -> Option<Seq<char>> {
    Some(file_text(contents))
}

/// What loading a store file gives: its entries in file order, or the
/// number (from 1) of the first malformed line.
pub open spec fn load_spec(contents: Option<Seq<char>>) -> Result<Seq<ItemView>, FormatError> {
    match parse_lines(file_lines(file_text(contents))) {
        Ok(rs) => Ok(rs),
        Err(k) => Err(FormatError { line: (k + 1) as usize }),
    }
}

/// The text that stores `rs`: each entry's line, followed by a line break.
pub open spec fn text_of(rs: Seq<ItemView>) -> Seq<char>
    decreases rs.len(),
{
    if rs.len() == 0 {
        Seq::empty()
    } else {
        text_of(rs.drop_last()) + line_of(rs.last()) + seq!['\n']
    }
}

/// The category given to an entry added without one.
pub open spec fn default_category() -> Seq<char> {
    seq!['n', 'o', 'n', 'e']
}

/// The entry that adding `name` at `date` under `category` creates.
pub open spec fn new_item(name: Seq<char>, date: Seq<char>, category: Option<Seq<char>>) -> ItemView {
    ItemView {
        name,
        date,
        category: match category {
            Some(c) => c,
            None => default_category(),
        },
    }
}

proof fn lemma_parse_lines_err_stays(lines: Seq<Seq<char>>, i: int, k: nat)
    requires
        0 <= i <= lines.len(),
        parse_lines(lines.take(i)) == Err::<Seq<ItemView>, nat>(k),
    ensures
        parse_lines(lines) == Err::<Seq<ItemView>, nat>(k),
    decreases lines.len() - i,
{
    if i < lines.len() {
        assert(lines.take(i + 1).drop_last() =~= lines.take(i));
        lemma_parse_lines_err_stays(lines, i + 1, k);
    } else {
        assert(lines.take(i) =~= lines);
    }
}

/// The lines of `rs`, one per entry.
pub open spec fn lines_of(rs: Seq<ItemView>) -> Seq<Seq<char>> {
    rs.map_values(|r: ItemView| line_of(r))
}

pub proof fn lemma_split_text(rs: Seq<ItemView>)
    requires
        forall|k: int| 0 <= k < rs.len() ==> fits_item(#[trigger] rs[k]),
    ensures
        split(text_of(rs), '\n') == lines_of(rs).push(Seq::empty()),
    decreases rs.len(),
{
    if rs.len() == 0 {
        assert(split(text_of(rs), '\n') =~= seq![Seq::<char>::empty()]);
        assert(lines_of(rs).push(Seq::empty()) =~= seq![Seq::<char>::empty()]);
    } else {
        let u = rs.drop_last();
        let r = rs.last();
        assert forall|k: int| 0 <= k < u.len() implies fits_item(#[trigger] u[k]) by {
            assert(u[k] == rs[k]);
        }
        lemma_split_text(u);
        assert(fits_item(rs[rs.len() - 1]));
        let line = line_of(r);
        assert(!line.contains('\n')) by {
            if line.contains('\n') {
                let k = choose|k: int| 0 <= k < line.len() && line[k] == '\n';
                if k < r.name.len() {
                    assert(r.name[k] == '\n');
                } else if k == r.name.len() {
                } else if k < r.name.len() + 1 + r.date.len() {
                    assert(r.date[k - r.name.len() - 1] == '\n');
                } else if k == r.name.len() + 1 + r.date.len() {
                } else {
                    assert(r.category[k - r.name.len() - 2 - r.date.len()] == '\n');
                }
            }
        }
        lemma_split_append_plain(text_of(u), line, '\n');
        assert((text_of(u) + line + seq!['\n']).drop_last() =~= text_of(u) + line);
        assert(lines_of(u).push(Seq::empty()).update(lines_of(u).len() as int, Seq::<char>::empty() + line)
            =~= lines_of(rs));
        assert(split(text_of(rs), '\n') =~= lines_of(rs).push(Seq::empty()));
    }
}

pub proof fn lemma_parse_lines_of(rs: Seq<ItemView>)
    requires
        forall|k: int| 0 <= k < rs.len() ==> fits_item(#[trigger] rs[k]),
    ensures
        parse_lines(lines_of(rs)) == Ok::<Seq<ItemView>, nat>(rs),
    decreases rs.len(),
{
    if rs.len() > 0 {
        let u = rs.drop_last();
        assert forall|k: int| 0 <= k < u.len() implies fits_item(#[trigger] u[k]) by {
            assert(u[k] == rs[k]);
        }
        lemma_parse_lines_of(u);
        assert(fits_item(rs[rs.len() - 1]));
        lemma_line_round_trip(rs.last());
        assert(lines_of(rs).drop_last() =~= lines_of(u));
        assert(lines_of(rs).last() == line_of(rs.last()));
        assert(line_of(rs.last()).len() > 0);
        assert(parse_line(line_of(rs.last())) == Some(rs.last()));
        assert(rs =~= u.push(rs.last()));
        assert(parse_lines(lines_of(rs)) == Ok::<Seq<ItemView>, nat>(u.push(rs.last())));
    } else {
        assert(lines_of(rs) =~= Seq::<Seq<char>>::empty());
        assert(rs =~= Seq::<ItemView>::empty());
    }
}

proof fn lemma_parse_line_fits(m: Seq<char>)
    requires
        !m.contains('\n'),
        parse_line(m) is Some,
    ensures
        fits_item(parse_line(m)->Some_0),
{
    let f = split(m, ',');
    lemma_split_pieces(m, ',');
    assert forall|k: int| 0 <= k < 3 implies fits_line(#[trigger] f[k]) by {
        if f[k].contains(',') {
            let j = choose|j: int| 0 <= j < f[k].len() && f[k][j] == ',';
            assert(f[k][j] != ',');
        }
        if f[k].contains('\n') {
            let j = choose|j: int| 0 <= j < f[k].len() && f[k][j] == '\n';
            assert(m.contains(f[k][j]));
        }
    }
}

proof fn lemma_parse_lines_fit(lines: Seq<Seq<char>>, rs: Seq<ItemView>)
    requires
        forall|k: int| 0 <= k < lines.len() ==> !(#[trigger] lines[k]).contains('\n'),
        parse_lines(lines) == Ok::<Seq<ItemView>, nat>(rs),
    ensures
        forall|k: int| 0 <= k < rs.len() ==> fits_item(#[trigger] rs[k]),
    decreases lines.len(),
{
    if lines.len() > 0 {
        let u = lines.drop_last();
        assert forall|k: int| 0 <= k < u.len() implies !(#[trigger] u[k]).contains('\n') by {
            assert(u[k] == lines[k]);
        }
        if let Ok(v) = parse_lines(u) {
            lemma_parse_lines_fit(u, v);
            let l = lines.last();
            if l.len() > 0 {
                assert(l == lines[lines.len() - 1]);
                lemma_parse_line_fits(l);
                assert forall|k: int| 0 <= k < rs.len() implies fits_item(#[trigger] rs[k]) by {
                    if k < v.len() {
                        assert(rs[k] == v[k]);
                    }
                }
            }
        }
    }
}

/// Every entry of a store that loads has fields free of commas and line
/// feeds.
pub proof fn lemma_loaded_fit(contents: Option<Seq<char>>, rs: Seq<ItemView>)
    requires
        load_spec(contents) == Ok::<Seq<ItemView>, FormatError>(rs),
    ensures
        forall|k: int| 0 <= k < rs.len() ==> fits_item(#[trigger] rs[k]),
{
    let t = file_text(contents);
    let p = split(t, '\n');
    let lines = file_lines(t);
    lemma_split_pieces(t, '\n');
    assert forall|k: int| 0 <= k < lines.len() implies !(#[trigger] lines[k]).contains('\n') by {
        if lines[k].contains('\n') {
            let j = choose|j: int| 0 <= j < lines[k].len() && lines[k][j] == '\n';
            assert(p[k][j] == lines[k][j]);
        }
    }
    if let Ok(v) = parse_lines(lines) {
        lemma_parse_lines_fit(lines, v);
    }
}

proof fn lemma_reread_fits(r: ItemView)
    requires
        fits_item(r),
    ensures
        fits_item(reread(r)),
        drop_cr(line_of(r)) == line_of(reread(r)),
{
    let c = r.category;
    if c.len() > 0 && c.last() == '\r' {
        let d = c.drop_last();
        if d.contains(',') || d.contains('\n') {
            let j = choose|j: int| 0 <= j < d.len() && (d[j] == ',' || d[j] == '\n');
            assert(c[j] == d[j]);
        }
        assert(line_of(r).last() == c.last());
        assert(line_of(r).drop_last() =~= line_of(reread(r)));
    } else {
        assert(reread(r) == r);
        assert(line_of(r).last() != '\r') by {
            if c.len() == 0 {
                assert(line_of(r).last() == ',');
            } else {
                assert(line_of(r).last() == c.last());
            }
        }
    }
}

/// The lines of stored text are the lines of the entries as they read back.
pub proof fn lemma_file_lines_text(rs: Seq<ItemView>)
    requires
        forall|k: int| 0 <= k < rs.len() ==> fits_item(#[trigger] rs[k]),
    ensures
        file_lines(text_of(rs)) == lines_of(rs.map_values(|r: ItemView| reread(r))).push(Seq::empty()),
{
    lemma_split_text(rs);
    let back = rs.map_values(|r: ItemView| reread(r));
    assert forall|k: int| 0 <= k < rs.len() implies drop_cr(line_of(rs[k])) == line_of(#[trigger] back[k]) by {
        lemma_reread_fits(rs[k]);
    }
    assert(file_lines(text_of(rs)) =~= lines_of(back).push(Seq::empty()));
}

/// Reads the entries of a store file, in file order. `None` stands for a
/// missing file, which reads as an empty store.
pub fn load(contents: Option<&str>) -> (r: Result<Vec<Item>, FormatError>)
    ensures
        match r {
            Ok(v) => load_spec(opt_view(contents)) == Ok::<Seq<ItemView>, FormatError>(view_all(v@)),
            Err(e) => load_spec(opt_view(contents)) == Err::<Seq<ItemView>, FormatError>(e),
        },
{
    let lines = match contents {
        Some(t) => split_on(t, '\n'),
        None => {
            proof {
                assert(file_text(opt_view(contents)) =~= Seq::<char>::empty());
            }
            split_on("", '\n')
        },
    };
    proof {
        reveal_strlit("");
    }
    let ghost ls = file_lines(file_text(opt_view(contents)));
    let mut out: Vec<Item> = Vec::new();
    let mut i: usize = 0;
    proof {
        assert(ls.take(0) =~= Seq::<Seq<char>>::empty());
        assert(view_all(out@) =~= Seq::<ItemView>::empty());
    }
    while i < lines.len()
        invariant
            i <= lines.len(),
            ls == file_lines(file_text(opt_view(contents))),
            lines.deep_view() == split(file_text(opt_view(contents)), '\n'),
            parse_lines(ls.take(i as int)) == Ok::<Seq<ItemView>, nat>(view_all(out@)),
        decreases lines.len() - i,
    {
        proof {
            assert(ls.take(i + 1).drop_last() =~= ls.take(i as int));
            assert(ls.take(i + 1).last() == ls[i as int]);
        }
        let line = if i + 1 < lines.len() {
            trim_cr(lines[i].as_str())
        } else {
            lines[i].as_str()
        };
        proof {
            assert(lines.deep_view()[i as int] == lines[i as int]@);
            assert(line@ == ls[i as int]);
        }
        if line.unicode_len() > 0 {
            match Item::from_line(line) {
                Some(item) => {
                    let ghost before = out@;
                    out.push(item);
                    proof {
                        assert(view_all(out@) =~= view_all(before).push(item@));
                        assert(parse_lines(ls.take(i + 1)) == Ok::<Seq<ItemView>, nat>(view_all(out@)));
                    }
                },
                None => {
                    proof {
                        lemma_parse_lines_err_stays(ls, i + 1, i as nat);
                    }
                    return Err(FormatError { line: i + 1 });
                },
            }
        }
        proof {
            assert(parse_lines(ls.take(i + 1)) == Ok::<Seq<ItemView>, nat>(view_all(out@)));
        }
        i = i + 1;
    }
    proof {
        assert(ls.take(i as int) =~= ls);
    }
    Ok(out)
}

/// Writes the entries as the store file's text, one line each.
pub fn to_text(items: &Vec<Item>) -> (r: String)
    ensures
        r@ == text_of(view_all(items@)),
{
    let mut s = String::new();
    let mut i: usize = 0;
    while i < items.len()
        invariant
            i <= items.len(),
            s@ == text_of(view_all(items@.take(i as int))),
        decreases items.len() - i,
    {
        let line = items[i].to_string();
        s.append(line.as_str());
        s.push('\n');
        proof {
            assert(view_all(items@.take(i + 1)).drop_last() =~= view_all(items@.take(i as int)));
        }
        i = i + 1;
    }
    proof {
        assert(items@.take(i as int) =~= items@);
    }
    s
}

/// Appends the entry for `name` at `date`; with no category it is filed
/// under `none`.
pub fn add_record(items: &mut Vec<Item>, name: &str, date: &str, category: Option<&str>)
    requires
        name@.len() > 0,
        plain_field(name@),
        plain_field(date@),
        category matches Some(c) ==> plain_field(c@),
    ensures
        final(items)@.len() == old(items)@.len() + 1,
        view_all(final(items)@) == view_all(old(items)@).push(new_item(name@, date@, opt_view(category))),
{
    let c = match category {
        Some(c) => String::from_str(c),
        None => {
            proof {
                reveal_strlit("none");
            }
            let d = String::from_str("none");
            assert(d@ =~= default_category());
            d
        },
    };
    let item = Item { name: String::from_str(name), date: String::from_str(date), category: c };
    items.push(item);
    proof {
        assert(view_all(final(items)@) =~= view_all(old(items)@).push(new_item(name@, date@, opt_view(category))));
    }
}

/// Appends an entry for `name` dated now, filed under `category` or, with
/// none given, under `none`. The date holds no comma and no line break.
pub fn add(items: &mut Vec<Item>, name: &str, category: Option<&str>)
    requires
        name@.len() > 0,
        plain_field(name@),
        category matches Some(c) ==> plain_field(c@),
    ensures
        final(items)@.len() == old(items)@.len() + 1,
        view_all(final(items)@) == view_all(old(items)@).push(
            new_item(name@, final(items)@.last().date@, opt_view(category)),
        ),
        final(items)@.last().date@.len() > 0,
        plain_field(final(items)@.last().date@),
{
    let date = now_rfc3339();
    add_record(items, name, date.as_str(), category);
    proof {
        assert(view_all(final(items)@).last() == final(items)@.last()@);
    }
}

} // verus!
