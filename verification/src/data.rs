//! The wiki's data records (items, NPCs, pages) and the computations made on them
//! once they are loaded: drop enrichment, page slugs and titles, ordering by name.
use std::collections::HashMap;
use vstd::prelude::*;
use vstd::string::StringExecFns;

use crate::markup::{item_link, item_link_with_id};
use crate::text::{
    is_white_space, lemma_replace_absent, lemma_replace_concat, lemma_replace_one, lemma_title_case_two,
    lemma_words_two, lemma_title_case_single, lemma_words_single, uppercase,
    chars_of, join_title_case, lowercase, replace_char, replace_chars, split_words, string_of,
    title_case, to_lowercase, words,
};

verus! {

/// An item of the game, as its JSON definition describes it.
#[derive(Debug)]
pub struct Item {
    pub id: String,
    pub name: String,
    pub description: String,
    pub item_type: String,
    pub healing: Option<i32>,
    pub stats: HashMap<String, i32>,
    pub requirements: Option<HashMap<String, i32>>,
    pub acquisition: String,
    pub sell_price: Option<u64>,
    pub notes: String,
}

/// A non-player character, as its JSON definition describes it.
#[derive(Debug)]
pub struct Npc {
    pub id: String,
    pub name: String,
    pub location: String,
    pub role: String,
    pub description: String,
    pub level: Option<i32>,
    pub hitpoints: Option<i32>,
    pub stats: HashMap<String, i32>,
    pub drops: Vec<String>,
    pub notes: String,
}

/// A page rendered from a markdown file.
#[derive(Debug)]
pub struct Page {
    pub slug: String,
    pub title: String,
    pub body_html: String,
}

/// A drop of an NPC, with the item it names (when one matches) and its link.
#[derive(Debug)]
pub struct EnrichedDrop {
    pub item_id: String,
    pub item_name: String,
    pub item_type: String,
    pub sell_price: Option<u64>,
    pub link_html: String,
}

// ---------------------------------------------------------------------------
// Drops
// ---------------------------------------------------------------------------

/// `j` is the first index of `items` whose name, lower-cased, is `name_lower`.
pub open spec fn is_first_named(items: Seq<Item>, name_lower: Seq<char>, j: int) -> bool {
    &&& 0 <= j < items.len()
    &&& lowercase(items[j].name@) == name_lower
    &&& forall|m: int| 0 <= m < j ==> lowercase(#[trigger] items[m].name@) != name_lower
}

/// The first index of `items` whose name matches `drop_name` case-insensitively, if any.
pub open spec fn drop_match(items: Seq<Item>, drop_name: Seq<char>) -> Option<int> {
    let l = lowercase(drop_name);
    if exists|j: int| is_first_named(items, l, j) {
        Some(choose|j: int| is_first_named(items, l, j))
    } else {
        None
    }
}

/// Converts a drop name to an enriched drop: the first item whose name equals it up to
/// case gives the id, name, type, price and a link with its icon; with no such item the
/// drop name stands alone, without a link.
pub fn enrich_drop(drop_name: &str, items: &[Item]) -> (r: EnrichedDrop)
    ensures
        match drop_match(items@, drop_name@) {
            Some(j) => {
                let it = items@[j];
                &&& r.item_id@ == it.id@
                &&& r.item_name@ == it.name@
                &&& r.item_type@ == it.item_type@
                &&& r.sell_price == it.sell_price
                &&& r.link_html@ == item_link(it.id@, it.id@, it.name@)
            },
            None => {
                &&& r.item_id@ == Seq::<char>::empty()
                &&& r.item_name@ == drop_name@
                &&& r.item_type@ == Seq::<char>::empty()
                &&& r.sell_price is None
                &&& r.link_html@ == drop_name@
            },
        },
{
    let drop_lower = to_lowercase(drop_name);
    let ghost l = lowercase(drop_name@);
    let mut i: usize = 0;
    while i < items.len()
        invariant
            i <= items.len(),
            drop_lower@ == l,
            l == lowercase(drop_name@),
            forall|m: int| 0 <= m < i ==> lowercase(#[trigger] items@[m].name@) != l,
        decreases items.len() - i,
    {
        let name_lower = to_lowercase(items[i].name.as_str());
        if name_lower == drop_lower {
            let item = &items[i];
            assert(is_first_named(items@, l, i as int));
            let ghost j = choose|j: int| is_first_named(items@, l, j);
            assert(j == i) by {
                if j < i {
                    assert(lowercase(items@[j].name@) != l);
                }
                if j > i {
                    assert(lowercase(items@[i as int].name@) != l);
                }
            }
            return EnrichedDrop {
                item_id: item.id.clone(),
                item_name: item.name.clone(),
                item_type: item.item_type.clone(),
                sell_price: item.sell_price,
                link_html: item_link_with_id(item.id.as_str(), item.id.as_str(), item.name.as_str()),
            };
        }
        i = i + 1;
    }
    assert(!exists|j: int| is_first_named(items@, l, j));
    EnrichedDrop {
        item_id: String::new(),
        item_name: String::from_str(drop_name),
        item_type: String::new(),
        sell_price: None,
        link_html: String::from_str(drop_name),
    }
}

/// If some item's name matches `name_lower` after lower-casing, a first such item exists.
proof fn lemma_first_named_exists(items: Seq<Item>, name_lower: Seq<char>, j: int)
    requires
        0 <= j < items.len(),
        lowercase(items[j].name@) == name_lower,
    ensures
        exists|i: int| is_first_named(items, name_lower, i),
    decreases j,
{
    if exists|m: int| 0 <= m < j && lowercase(items[m].name@) == name_lower {
        let m = choose|m: int| 0 <= m < j && lowercase(items[m].name@) == name_lower;
        lemma_first_named_exists(items, name_lower, m);
    } else {
        assert(is_first_named(items, name_lower, j));
    }
}

/// Which item a drop is matched to: the first item whose name, lower-cased, equals the drop
/// name lower-cased; no item when no name is equal to it in that way.
pub proof fn law_drop_matches_first_equal_name(items: Seq<Item>, drop_name: Seq<char>)
    ensures
        match drop_match(items, drop_name) {
            Some(j) => {
                &&& 0 <= j < items.len()
                &&& lowercase(items[j].name@) == lowercase(drop_name)
                &&& forall|m: int|
                    0 <= m < j ==> lowercase(#[trigger] items[m].name@) != lowercase(drop_name)
            },
            None => forall|j: int|
                0 <= j < items.len() ==> lowercase(#[trigger] items[j].name@) != lowercase(drop_name),
        },
{
    let l = lowercase(drop_name);
    if exists|j: int| 0 <= j < items.len() && lowercase(#[trigger] items[j].name@) == l {
        let j = choose|j: int| 0 <= j < items.len() && lowercase(#[trigger] items[j].name@) == l;
        lemma_first_named_exists(items, l, j);
        let f = choose|i: int| is_first_named(items, l, i);
        assert(is_first_named(items, l, f));
    }
}

// ---------------------------------------------------------------------------
// Notes and markdown
// ---------------------------------------------------------------------------

/// Errors of the data computations.
#[derive(Debug)]
pub enum DataError {
    /// A page file lies outside the directory that pages are taken from.
    NotUnderBase,
}

/// The extra notes of an NPC: there are none yet, so this is always empty.
pub fn load_npc_notes(_id: &str) -> (r: Result<String, DataError>)
    ensures
        r matches Ok(s) && s@ == Seq::<char>::empty(),
{
    Ok(String::new())
}

/// The HTML that pulldown-cmark renders for the markdown `src`, with the tables,
/// footnotes and strikethrough extensions on or off as the flags say.
pub uninterp spec fn markdown_html(src: Seq<char>, tables: bool, footnotes: bool, strikethrough: bool) -> Seq<char>;

/// Calls pulldown-cmark: `Parser::new_ext` with the options the flags select, then
/// `html::push_html` into an empty string. Claimed: the result is `markdown_html` of the
/// arguments, a function of them alone; the HTML itself is not stated.
#[verifier::external_body]
fn render_markdown(src: &str, tables: bool, footnotes: bool, strikethrough: bool) -> (r: String)
    ensures
        r@ == markdown_html(src@, tables, footnotes, strikethrough),
{
    let mut options = pulldown_cmark::Options::empty();
    options.set(pulldown_cmark::Options::ENABLE_TABLES, tables);
    options.set(pulldown_cmark::Options::ENABLE_FOOTNOTES, footnotes);
    options.set(pulldown_cmark::Options::ENABLE_STRIKETHROUGH, strikethrough);
    let mut out = String::new();
    pulldown_cmark::html::push_html(&mut out, pulldown_cmark::Parser::new_ext(src, options));
    out
}

/// Renders markdown to HTML with tables, footnotes and strikethrough enabled.
pub fn markdown_to_html(src: &str) -> (r: String)
    ensures
        r@ == markdown_html(src@, true, true, true),
{
    render_markdown(src, true, true, true)
}

// ---------------------------------------------------------------------------
// Page slugs and titles
// ---------------------------------------------------------------------------

/// A component of a file path, its name converted to a string.
#[derive(Debug)]
pub enum PathPart {
    RootDir,
    CurDir,
    ParentDir,
    Normal(String),
}

/// The contents of a `PathPart`.
pub enum PartView {
    RootDir,
    CurDir,
    ParentDir,
    Normal(Seq<char>),
}

impl View for PathPart {
    type V = PartView;

    open spec fn view(&self) -> PartView {
        match self {
            PathPart::RootDir => PartView::RootDir,
            PathPart::CurDir => PartView::CurDir,
            PathPart::ParentDir => PartView::ParentDir,
            PathPart::Normal(s) => PartView::Normal(s@),
        }
    }
}

/// The contents of a list of path components.
pub open spec fn parts_view(ps: Seq<PathPart>) -> Seq<PartView> {
    ps.map_values(|p: PathPart| p@)
}

/// The part of `s` before its last `.`, if it has one (`str::rsplit_once('.')`).
pub open spec fn before_last_dot(s: Seq<char>) -> Option<Seq<char>>
    decreases s.len(),
{
    if s.len() == 0 {
        None
    } else if s.last() == '.' {
        Some(s.drop_last())
    } else {
        before_last_dot(s.drop_last())
    }
}

/// A file name without its last extension.
pub open spec fn stem(name: Seq<char>) -> Seq<char> {
    match before_last_dot(name) {
        Some(s) => s,
        None => name,
    }
}

/// The path `buf` with `p` pushed onto it, as `PathBuf::push` does with `/` as separator:
/// an absolute `p` replaces `buf`; otherwise a separator is put between them unless `buf`
/// is empty or already ends in one.
pub open spec fn path_push(buf: Seq<char>, p: Seq<char>) -> Seq<char> {
    if p.len() > 0 && p[0] == '/' {
        p
    } else if buf.len() > 0 && buf.last() != '/' {
        buf + seq!['/'] + p
    } else {
        buf + p
    }
}

/// The path made of the stems of the named components of `parts`.
pub open spec fn stem_path(parts: Seq<PartView>) -> Seq<char>
    decreases parts.len(),
{
    if parts.len() == 0 {
        Seq::empty()
    } else {
        let b = stem_path(parts.drop_last());
        match parts.last() {
            PartView::Normal(n) => path_push(b, stem(n)),
            _ => b,
        }
    }
}

/// The slug of a page at the path `full` under the directory `base`: the stems of the
/// path's named components below `base`, separated by `/`, with any `\` turned into `/`.
pub open spec fn slug(base: Seq<PartView>, full: Seq<PartView>) -> Seq<char> {
    replace_char(stem_path(full.skip(base.len() as int)), '\\', seq!['/'])
}

/// Whether two path components are the same.
fn same_part(a: &PathPart, b: &PathPart) -> (r: bool)
    ensures
        r == (a@ == b@),
{
    match a {
        PathPart::RootDir => matches!(b, PathPart::RootDir),
        PathPart::CurDir => matches!(b, PathPart::CurDir),
        PathPart::ParentDir => matches!(b, PathPart::ParentDir),
        PathPart::Normal(x) => match b {
            PathPart::Normal(y) => {
                let e = *x == *y;
                assert(e == (x@ == y@));
                e
            },
            _ => false,
        },
    }
}

/// A file name without its last extension.
fn stem_of(name: &Vec<char>) -> (r: Vec<char>)
    ensures
        r@ == stem(name@),
{
    let mut j = name.len();
    assert(name@.take(j as int) =~= name@);
    while j > 0 && name[j - 1] != '.'
        invariant
            j <= name.len(),
            before_last_dot(name@.take(j as int)) == before_last_dot(name@),
        decreases j,
    {
        assert(name@.take(j as int).drop_last() =~= name@.take(j - 1));
        j = j - 1;
    }
    if j == 0 {
        assert(name@.take(0) =~= Seq::<char>::empty());
        return copy_chars(name);
    }
    assert(name@.take(j as int).drop_last() =~= name@.take(j - 1));
    let mut r: Vec<char> = Vec::new();
    let mut i: usize = 0;
    while i < j - 1
        invariant
            0 < j <= name.len(),
            i <= j - 1,
            r@ == name@.take(i as int),
        decreases j - 1 - i,
    {
        r.push(name[i]);
        assert(name@.take(i + 1) =~= name@.take(i as int).push(name@[i as int]));
        i = i + 1;
    }
    r
}

/// A copy of `v`.
fn copy_chars(v: &Vec<char>) -> (r: Vec<char>)
    ensures
        r@ == v@,
{
    let mut r: Vec<char> = Vec::new();
    let mut i: usize = 0;
    while i < v.len()
        invariant
            i <= v.len(),
            r@ == v@.take(i as int),
        decreases v.len() - i,
    {
        r.push(v[i]);
        assert(v@.take(i + 1) =~= v@.take(i as int).push(v@[i as int]));
        i = i + 1;
    }
    assert(v@.take(v.len() as int) =~= v@);
    r
}

/// `buf` with `p` pushed onto it as a path component.
fn push_path(buf: &mut Vec<char>, p: &Vec<char>)
    ensures
        final(buf)@ == path_push(old(buf)@, p@),
{
    if p.len() > 0 && p[0] == '/' {
        *buf = copy_chars(p);
        return ;
    }
    if buf.len() > 0 && buf[buf.len() - 1] != '/' {
        buf.push('/');
    }
    let ghost start = buf@;
    let mut i: usize = 0;
    while i < p.len()
        invariant
            i <= p.len(),
            buf@ == start + p@.take(i as int),
        decreases p.len() - i,
    {
        buf.push(p[i]);
        assert(p@.take(i + 1) =~= p@.take(i as int).push(p@[i as int]));
        i = i + 1;
    }
    assert(p@.take(p.len() as int) =~= p@);
}

/// The slug of the page at the path `full` (given by its components) under the directory
/// `base`; an error when `full` does not lie under `base`.
pub fn page_slug(base: &[PathPart], full: &[PathPart]) -> (r: Result<String, DataError>)
    ensures
        parts_view(base@).is_prefix_of(parts_view(full@)) ==> (r matches Ok(s) && s@ == slug(
            parts_view(base@),
            parts_view(full@),
        )),
        !parts_view(base@).is_prefix_of(parts_view(full@)) ==> (r matches Err(
            DataError::NotUnderBase,
        )),
{
    let ghost bv = parts_view(base@);
    let ghost fv = parts_view(full@);
    if base.len() > full.len() {
        return Err(DataError::NotUnderBase);
    }
    let mut i: usize = 0;
    while i < base.len()
        invariant
            i <= base.len() <= full.len(),
            bv == parts_view(base@),
            fv == parts_view(full@),
            forall|m: int| 0 <= m < i ==> bv[m] == fv[m],
        decreases base.len() - i,
    {
        if !same_part(&base[i], &full[i]) {
            assert(fv.subrange(0, bv.len() as int)[i as int] != bv[i as int]);
            return Err(DataError::NotUnderBase);
        }
        i = i + 1;
    }
    assert(fv.subrange(0, bv.len() as int) =~= bv);
    let ghost rest = fv.skip(base.len() as int);
    let mut buf: Vec<char> = Vec::new();
    let mut j: usize = base.len();
    while j < full.len()
        invariant
            base.len() <= j <= full.len(),
            fv == parts_view(full@),
            rest == fv.skip(base.len() as int),
            buf@ == stem_path(rest.take(j - base.len())),
        decreases full.len() - j,
    {
        let ghost pre = rest.take(j - base.len());
        assert(rest.take(j + 1 - base.len()).drop_last() =~= pre);
        assert(rest.take(j + 1 - base.len()).last() == fv[j as int]);
        match &full[j] {
            PathPart::Normal(name) => {
                let st = stem_of(&chars_of(name.as_str()));
                push_path(&mut buf, &st);
            },
            _ => {},
        }
        j = j + 1;
    }
    assert(rest.take(full.len() - base.len()) =~= rest);
    let out = replace_chars(&buf, '\\', '/');
    Ok(string_of(&out))
}

/// The title of a page whose file stem is `file_stem` ("Page" when there is none): dashes
/// and underscores become spaces, and the white-space separated words, each with its first
/// character upper-cased, are joined with single spaces.
pub open spec fn page_title(file_stem: Option<Seq<char>>) -> Seq<char> {
    let s = match file_stem {
        Some(x) => x,
        None => "Page"@,
    };
    title_case(words(replace_char(replace_char(s, '_', seq![' ']), '-', seq![' '])))
}

/// A page whose file stem is a single word (no `-`, `_` or white space) is titled by that
/// word with its first character upper-cased and the rest kept as written.
pub proof fn law_single_word_title(stem: Seq<char>)
    requires
        stem.len() > 0,
        forall|m: int|
            0 <= m < stem.len() ==> #[trigger] stem[m] != '-' && stem[m] != '_' && !is_white_space(
                stem[m],
            ),
    ensures
        page_title(Some(stem)) == uppercase(stem[0]) + stem.drop_first(),
{
    lemma_replace_absent(stem, '_', seq![' ']);
    lemma_replace_absent(stem, '-', seq![' ']);
    lemma_words_single(stem);
    lemma_title_case_single(stem);
}

/// A page whose file stem is two words joined by `-`, `_` or a white-space character is
/// titled by the two words, each with its first character upper-cased and the rest kept as
/// written, separated by one space.
pub proof fn law_two_word_title(a: Seq<char>, sep: char, b: Seq<char>)
    requires
        a.len() > 0,
        b.len() > 0,
        sep == '-' || sep == '_' || is_white_space(sep),
        forall|m: int|
            0 <= m < a.len() ==> #[trigger] a[m] != '-' && a[m] != '_' && !is_white_space(a[m]),
        forall|m: int|
            0 <= m < b.len() ==> #[trigger] b[m] != '-' && b[m] != '_' && !is_white_space(b[m]),
    ensures
        page_title(Some(a + seq![sep] + b)) == uppercase(a[0]) + a.drop_first() + seq![' ']
            + uppercase(b[0]) + b.drop_first(),
{
    let s = a + seq![sep] + b;
    let c = if sep == '-' || sep == '_' { ' ' } else { sep };
    lemma_replace_concat(a + seq![sep], b, '_', seq![' ']);
    lemma_replace_concat(a, seq![sep], '_', seq![' ']);
    lemma_replace_absent(a, '_', seq![' ']);
    lemma_replace_absent(b, '_', seq![' ']);
    let s1 = a + replace_char(seq![sep], '_', seq![' ']) + b;
    assert(replace_char(s, '_', seq![' ']) == s1);
    let mid1 = replace_char(seq![sep], '_', seq![' ']);
    lemma_replace_one(sep, '_', seq![' ']);
    lemma_replace_concat(a + mid1, b, '-', seq![' ']);
    lemma_replace_concat(a, mid1, '-', seq![' ']);
    lemma_replace_absent(a, '-', seq![' ']);
    lemma_replace_absent(b, '-', seq![' ']);
    let mid2 = replace_char(mid1, '-', seq![' ']);
    if sep == '_' {
        lemma_replace_one(' ', '-', seq![' ']);
    } else {
        lemma_replace_one(sep, '-', seq![' ']);
    }
    assert(mid2 =~= seq![c]);
    assert(replace_char(s1, '-', seq![' ']) == a + seq![c] + b);
    lemma_words_two(a, c, b);
    lemma_title_case_two(a, b);
}

/// Derives a page title from the stem of its file name.
pub fn derive_title_from_path(file_stem: Option<&str>) -> (r: String)
    ensures
        r@ == page_title(
            match file_stem {
                Some(x) => Some(x@),
                None => None,
            },
        ),
{
    let name = match file_stem {
        Some(x) => x,
        None => "Page",
    };
    let cs = chars_of(name);
    let cleaned = replace_chars(&replace_chars(&cs, '_', ' '), '-', ' ');
    let ws = split_words(&cleaned);
    join_title_case(&ws)
}

} // verus!
