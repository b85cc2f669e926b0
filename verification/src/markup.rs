//! Wiki markup: item and NPC references in page text, and the links they become.
use vstd::prelude::*;

use crate::lookup::{find_entry, LookupData, LookupView};
use crate::text::{
    lemma_split_single, lemma_split_two, lemma_title_case_single, lemma_title_case_two, uppercase,
    chars_of, join_title_case, lowercase, push_char, push_chars, push_str, replace_char,
    replace_chars, split_at_char, split_on, string_of, title_case, to_lowercase,
};

verus! {

broadcast use vstd::string::group_string_axioms;

// ---------------------------------------------------------------------------
// Links
// ---------------------------------------------------------------------------

/// The link to an item page `/items/<page>.html`, with the icon `<icon>.png`, showing `text`.
pub open spec fn item_link(page: Seq<char>, icon: Seq<char>, text: Seq<char>) -> Seq<char> {
    "<a href=\"/items/"@ + page + ".html\" class=\"item-link\"><img src=\"/assets/images/items/"@
        + icon + ".png\" alt=\""@ + text + "\" class=\"inline-icon\" />"@ + text + "</a>"@
}

/// The link to an NPC page `/npcs/<page>.html`, with the icon `<icon>.png`, showing `text`.
pub open spec fn npc_link(page: Seq<char>, icon: Seq<char>, text: Seq<char>) -> Seq<char> {
    "<a href=\"/npcs/"@ + page + ".html\" class=\"npc-link\"><img src=\"/assets/images/npcs/"@
        + icon + ".png\" alt=\""@ + text + "\" class=\"inline-icon\" />"@ + text + "</a>"@
}

/// An item link with an icon, for an item whose wiki page name and icon id are known.
pub fn item_link_with_id(wiki_name: &str, icon_id: &str, display_text: &str) -> (r: String)
    ensures
        r@ == item_link(wiki_name@, icon_id@, display_text@),
{
    let mut r = String::new();
    push_str(&mut r, "<a href=\"/items/");
    push_str(&mut r, wiki_name);
    push_str(&mut r, ".html\" class=\"item-link\"><img src=\"/assets/images/items/");
    push_str(&mut r, icon_id);
    push_str(&mut r, ".png\" alt=\"");
    push_str(&mut r, display_text);
    push_str(&mut r, "\" class=\"inline-icon\" />");
    push_str(&mut r, display_text);
    push_str(&mut r, "</a>");
    r
}

/// An item link for a reference that no item definition resolves: the reference itself
/// stands for both the page name and the icon.
pub fn item_link_basic(slug: &str, display_text: &str) -> (r: String)
    ensures
        r@ == item_link(slug@, slug@, display_text@),
{
    item_link_with_id(slug, slug, display_text)
}

/// An NPC link with an icon, for an NPC whose wiki page name and icon id are known.
pub fn npc_link_with_id(wiki_name: &str, icon_id: &str, display_text: &str) -> (r: String)
    ensures
        r@ == npc_link(wiki_name@, icon_id@, display_text@),
{
    let mut r = String::new();
    push_str(&mut r, "<a href=\"/npcs/");
    push_str(&mut r, wiki_name);
    push_str(&mut r, ".html\" class=\"npc-link\"><img src=\"/assets/images/npcs/");
    push_str(&mut r, icon_id);
    push_str(&mut r, ".png\" alt=\"");
    push_str(&mut r, display_text);
    push_str(&mut r, "\" class=\"inline-icon\" />");
    push_str(&mut r, display_text);
    push_str(&mut r, "</a>");
    r
}

/// An NPC link for a reference that no NPC definition resolves.
pub fn npc_link_basic(slug: &str, display_text: &str) -> (r: String)
    ensures
        r@ == npc_link(slug@, slug@, display_text@),
{
    npc_link_with_id(slug, slug, display_text)
}

// ---------------------------------------------------------------------------
// Display names
// ---------------------------------------------------------------------------

/// The display name of an id: the dash-separated parts, each with its first character
/// upper-cased, joined with spaces ("iron-ore" gives "Iron Ore").
pub open spec fn display_name(id: Seq<char>) -> Seq<char> {
    title_case(split_on(id, '-'))
}

/// The display name of an id without dashes is the id with its first character upper-cased
/// and the rest kept as written.
pub proof fn law_single_part_display_name(id: Seq<char>)
    requires
        id.len() > 0,
        forall|m: int| 0 <= m < id.len() ==> id[m] != '-',
    ensures
        display_name(id) == uppercase(id[0]) + id.drop_first(),
{
    lemma_split_single(id, '-');
    lemma_title_case_single(id);
}

/// The display name of an id of two dash-separated parts is the two parts, each with its
/// first character upper-cased, separated by a space.
pub proof fn law_two_part_display_name(a: Seq<char>, b: Seq<char>)
    requires
        a.len() > 0,
        b.len() > 0,
        forall|m: int| 0 <= m < a.len() ==> a[m] != '-',
        forall|m: int| 0 <= m < b.len() ==> b[m] != '-',
    ensures
        display_name(a + seq!['-'] + b) == uppercase(a[0]) + a.drop_first() + seq![' '] + uppercase(
            b[0],
        ) + b.drop_first(),
{
    lemma_split_two(a, '-', b);
    lemma_title_case_two(a, b);
}

/// Converts an id to a display name (e.g., "iron-ore" -> "Iron Ore").
pub fn id_to_display_name(id: &str) -> (r: String)
    ensures
        r@ == display_name(id@),
{
    let cs = chars_of(id);
    let parts = split_at_char(&cs, '-');
    join_title_case(&parts)
}

// ---------------------------------------------------------------------------
// The markup grammar
// ---------------------------------------------------------------------------

/// What a reference names.
#[derive(Clone, Copy, Debug)]
pub enum Kind {
    Item,
    Npc,
}

/// How a reference is written.
#[derive(Clone, Copy, Debug)]
pub enum Form {
    /// `<item name="key" ...>text</item>`
    Full,
    /// `<item:key>`
    Short,
    /// `<a href="item:key">...</a>`, what markdown makes of the short form
    Autolink,
}

/// The tag name of a kind of reference.
pub open spec fn tag(k: Kind) -> Seq<char> {
    match k {
        Kind::Item => seq!['i', 't', 'e', 'm'],
        Kind::Npc => seq!['n', 'p', 'c'],
    }
}

/// Sets of characters that the grammar repeats.
#[derive(Clone, Copy, Debug)]
pub enum Class {
    Space,
    NotQuote,
    NotGt,
    NotLt,
    Slug,
}

/// Whether `c` belongs to the class `cl`.
pub open spec fn in_class(c: char, cl: Class) -> bool {
    match cl {
        Class::Space => crate::text::is_white_space(c),
        Class::NotQuote => c != '"',
        Class::NotGt => c != '>',
        Class::NotLt => c != '<',
        Class::Slug => ('a' <= c && c <= 'z') || ('0' <= c && c <= '9') || c == '-',
    }
}

/// The end of the longest run of characters of class `cl` in `t` starting at `i`.
pub open spec fn scan(t: Seq<char>, i: int, cl: Class) -> int
    decreases t.len() - i,
{
    if i < 0 || i >= t.len() {
        i
    } else if in_class(t[i], cl) {
        scan(t, i + 1, cl)
    } else {
        i
    }
}

/// `l` occurs in `t` at `i`.
pub open spec fn lit_at(t: Seq<char>, i: int, l: Seq<char>) -> bool {
    0 <= i && i + l.len() <= t.len() && t.subrange(i, i + l.len()) == l
}

/// A reference found in a text: where it ends, its key, and its text (full form only).
pub struct Hit {
    pub end: int,
    pub key: Seq<char>,
    pub text: Seq<char>,
}

/// `name="`
pub open spec fn name_attr() -> Seq<char> {
    seq!['n', 'a', 'm', 'e', '=', '"']
}

/// `href="`
pub open spec fn href_attr() -> Seq<char> {
    seq!['h', 'r', 'e', 'f', '=', '"']
}

/// A full reference `<tag\s+name="key"[^>]*>text</tag>` at `i`, with a non-empty key
/// free of `"` and a text free of `<`.
pub open spec fn full_at(t: Seq<char>, i: int, k: Kind) -> Option<Hit> {
    let tg = tag(k);
    let a = i + 1 + tg.len();
    let b = scan(t, a, Class::Space);
    let k0 = b + 6;
    let k1 = scan(t, k0, Class::NotQuote);
    let g = scan(t, k1 + 1, Class::NotGt);
    let d1 = scan(t, g + 1, Class::NotLt);
    if lit_at(t, i, seq!['<'] + tg) && b > a && lit_at(t, b, name_attr()) && k1 > k0 && k1
        < t.len() && g < t.len() && lit_at(t, d1, seq!['<', '/'] + tg + seq!['>']) {
        Some(Hit { end: d1 + 3 + tg.len(), key: t.subrange(k0, k1), text: t.subrange(g + 1, d1) })
    } else {
        None
    }
}

/// A short reference `<tag:key>` at `i`, with a key of lower-case letters, digits and dashes.
pub open spec fn short_at(t: Seq<char>, i: int, k: Kind) -> Option<Hit> {
    let tg = tag(k);
    let k0 = i + 2 + tg.len();
    let k1 = scan(t, k0, Class::Slug);
    if lit_at(t, i, seq!['<'] + tg + seq![':']) && k1 > k0 && lit_at(t, k1, seq!['>']) {
        Some(Hit { end: k1 + 1, key: t.subrange(k0, k1), text: Seq::empty() })
    } else {
        None
    }
}

/// An autolink `<a\s+href="tag:key">[^<]*</a>` at `i`, with a key of lower-case letters,
/// digits and dashes.
pub open spec fn autolink_at(t: Seq<char>, i: int, k: Kind) -> Option<Hit> {
    let tg = tag(k);
    let a = i + 2;
    let b = scan(t, a, Class::Space);
    let k0 = b + 7 + tg.len();
    let k1 = scan(t, k0, Class::Slug);
    let d1 = scan(t, k1 + 2, Class::NotLt);
    if lit_at(t, i, seq!['<', 'a']) && b > a && lit_at(t, b, href_attr() + tg + seq![':'])
        && k1 > k0 && lit_at(t, k1, seq!['"', '>']) && lit_at(t, d1, seq!['<', '/', 'a', '>']) {
        Some(Hit { end: d1 + 4, key: t.subrange(k0, k1), text: Seq::empty() })
    } else {
        None
    }
}

/// The reference of kind `k` written in form `f` that starts at `i`, if one does.
pub open spec fn hit_at(t: Seq<char>, i: int, k: Kind, f: Form) -> Option<Hit> {
    match f {
        Form::Full => full_at(t, i, k),
        Form::Short => short_at(t, i, k),
        Form::Autolink => autolink_at(t, i, k),
    }
}

/// The run that `scan` measures stays within the text and past its start.
pub proof fn lemma_scan(t: Seq<char>, i: int, cl: Class)
    requires
        0 <= i <= t.len(),
    ensures
        i <= scan(t, i, cl) <= t.len(),
        forall|m: int| i <= m < scan(t, i, cl) ==> in_class(#[trigger] t[m], cl),
        scan(t, i, cl) < t.len() ==> !in_class(t[scan(t, i, cl)], cl),
    decreases t.len() - i,
{
    if i < t.len() && in_class(t[i], cl) {
        lemma_scan(t, i + 1, cl);
    }
}

/// A reference starts with `<` and ends after its start, within the text.
pub proof fn lemma_hit_bounds(t: Seq<char>, i: int, k: Kind, f: Form)
    requires
        0 <= i,
        hit_at(t, i, k, f) is Some,
    ensures
        i < hit_at(t, i, k, f)->0.end <= t.len(),
        t[i] == '<',
{
    let tg = tag(k);
    match f {
        Form::Full => {
            let a = i + 1 + tg.len();
            lemma_scan(t, a, Class::Space);
            let b = scan(t, a, Class::Space);
            lemma_scan(t, b + 6, Class::NotQuote);
            let k1 = scan(t, b + 6, Class::NotQuote);
            lemma_scan(t, k1 + 1, Class::NotGt);
            let g = scan(t, k1 + 1, Class::NotGt);
            lemma_scan(t, g + 1, Class::NotLt);
            assert(t.subrange(i, i + 1 + tg.len())[0] == '<');
        },
        Form::Short => {
            lemma_scan(t, i + 2 + tg.len(), Class::Slug);
            assert(t.subrange(i, i + 2 + tg.len())[0] == '<');
        },
        Form::Autolink => {
            lemma_scan(t, i + 2, Class::Space);
            let b = scan(t, i + 2, Class::Space);
            lemma_scan(t, b + 7 + tg.len(), Class::Slug);
            let k1 = scan(t, b + 7 + tg.len(), Class::Slug);
            lemma_scan(t, k1 + 2, Class::NotLt);
            assert(t.subrange(i, i + 2)[0] == '<');
        },
    }
}

// ---------------------------------------------------------------------------
// Rewriting
// ---------------------------------------------------------------------------

/// The contents of an optional lookup table.
pub open spec fn lookup_view(lk: Option<&LookupData>) -> Option<LookupView> {
    match lk {
        Some(l) => Some(l@),
        None => None,
    }
}

/// The link for a reference of kind `k` to `page` with icon `icon` showing `text`.
pub open spec fn link(k: Kind, page: Seq<char>, icon: Seq<char>, text: Seq<char>) -> Seq<char> {
    match k {
        Kind::Item => item_link(page, icon, text),
        Kind::Npc => npc_link(page, icon, text),
    }
}

/// What a reference shows: its own text in the full form, the display name of its key
/// otherwise.
pub open spec fn shown_text(f: Form, h: Hit) -> Seq<char> {
    match f {
        Form::Full => h.text,
        _ => display_name(h.key),
    }
}

/// The replacement of a reference: a link to the place its key resolves to in the table
/// of its kind; with no table, or no such place, a link that uses the key itself.
pub open spec fn replacement(k: Kind, f: Form, h: Hit, lk: Option<LookupView>) -> Seq<char> {
    let shown = shown_text(f, h);
    let found = match lk {
        Some(l) => find_entry(
            match k {
                Kind::Item => l.items,
                Kind::Npc => l.npcs,
            },
            h.key,
        ),
        None => None,
    };
    match found {
        Some(info) => link(k, info.wiki_name, info.id, shown),
        None => link(k, h.key, h.key, shown),
    }
}

/// `t` from `i` on, with every reference of kind `k` in form `f` replaced, scanning left
/// to right and resuming after each replaced reference.
pub open spec fn rewrite_from(t: Seq<char>, i: int, k: Kind, f: Form, lk: Option<LookupView>) -> Seq<
    char,
>
    decreases t.len() - i,
{
    if i < 0 || i >= t.len() {
        Seq::empty()
    } else {
        match hit_at(t, i, k, f) {
            Some(h) => {
                proof {
                    lemma_hit_bounds(t, i, k, f);
                }
                replacement(k, f, h, lk) + rewrite_from(t, h.end, k, f, lk)
            },
            None => seq![t[i]] + rewrite_from(t, i + 1, k, f, lk),
        }
    }
}

/// `t` with every reference of kind `k` in form `f` replaced.
pub open spec fn rewrite(t: Seq<char>, k: Kind, f: Form, lk: Option<LookupView>) -> Seq<char> {
    rewrite_from(t, 0, k, f, lk)
}

/// `t` with all references replaced by links: full item references, then full NPC
/// references, short item and NPC references, and last the autolinks that markdown made of
/// short references, each pass on the result of the one before.
pub open spec fn linkify(t: Seq<char>, lk: Option<LookupView>) -> Seq<char> {
    let t1 = rewrite(t, Kind::Item, Form::Full, lk);
    let t2 = rewrite(t1, Kind::Npc, Form::Full, lk);
    let t3 = rewrite(t2, Kind::Item, Form::Short, lk);
    let t4 = rewrite(t3, Kind::Npc, Form::Short, lk);
    let t5 = rewrite(t4, Kind::Item, Form::Autolink, lk);
    rewrite(t5, Kind::Npc, Form::Autolink, lk)
}

/// A pass leaves a text without `<` as it is.
pub proof fn lemma_rewrite_plain(t: Seq<char>, i: int, k: Kind, f: Form, lk: Option<LookupView>)
    requires
        0 <= i <= t.len(),
        forall|m: int| 0 <= m < t.len() ==> t[m] != '<',
    ensures
        rewrite_from(t, i, k, f, lk) == t.skip(i),
    decreases t.len() - i,
{
    if i < t.len() {
        if hit_at(t, i, k, f) is Some {
            lemma_hit_bounds(t, i, k, f);
        }
        lemma_rewrite_plain(t, i + 1, k, f, lk);
        assert(seq![t[i]] + t.skip(i + 1) =~= t.skip(i));
    } else {
        assert(t.skip(i) =~= Seq::<char>::empty());
    }
}

/// Text without `<` holds no reference, and linking gives it back unchanged.
pub proof fn law_plain_text_unchanged(t: Seq<char>, lk: Option<LookupView>)
    requires
        forall|m: int| 0 <= m < t.len() ==> t[m] != '<',
    ensures
        linkify(t, lk) == t,
{
    assert(t.skip(0) =~= t);
    lemma_rewrite_plain(t, 0, Kind::Item, Form::Full, lk);
    lemma_rewrite_plain(t, 0, Kind::Npc, Form::Full, lk);
    lemma_rewrite_plain(t, 0, Kind::Item, Form::Short, lk);
    lemma_rewrite_plain(t, 0, Kind::Npc, Form::Short, lk);
    lemma_rewrite_plain(t, 0, Kind::Item, Form::Autolink, lk);
    lemma_rewrite_plain(t, 0, Kind::Npc, Form::Autolink, lk);
}

/// An autolink that markdown made of a short reference is replaced just as the short
/// reference itself would be.
pub proof fn law_autolink_as_short(k: Kind, short: Hit, auto: Hit, lk: Option<LookupView>)
    requires
        short.key == auto.key,
    ensures
        replacement(k, Form::Autolink, auto, lk) == replacement(k, Form::Short, short, lk),
{
}

/// How a reference is replaced, kind by kind: when the table of its kind resolves its key,
/// by the link to the resolved page and icon; otherwise, and when there is no table, by
/// the link that uses the key for both. The link shows the reference's own text in the full
/// form and the display name of the key in the other forms.
pub proof fn law_replacement_uses_table_of_its_kind(f: Form, h: Hit, l: LookupView)
    ensures
        ({
            let shown = if f is Full {
                h.text
            } else {
                display_name(h.key)
            };
            &&& match find_entry(l.items, h.key) {
                Some(info) => replacement(Kind::Item, f, h, Some(l)) == item_link(
                    info.wiki_name,
                    info.id,
                    shown,
                ),
                None => replacement(Kind::Item, f, h, Some(l)) == item_link(h.key, h.key, shown),
            }
            &&& match find_entry(l.npcs, h.key) {
                Some(info) => replacement(Kind::Npc, f, h, Some(l)) == npc_link(
                    info.wiki_name,
                    info.id,
                    shown,
                ),
                None => replacement(Kind::Npc, f, h, Some(l)) == npc_link(h.key, h.key, shown),
            }
            &&& replacement(Kind::Item, f, h, None) == item_link(h.key, h.key, shown)
            &&& replacement(Kind::Npc, f, h, None) == npc_link(h.key, h.key, shown)
        }),
{
}

/// The full reference `<tag name="key">text</tag>`.
pub open spec fn full_reference(k: Kind, key: Seq<char>, text: Seq<char>) -> Seq<char> {
    seq!['<'] + tag(k) + seq![' '] + name_attr() + key + seq!['"', '>'] + text + (seq!['<', '/']
        + tag(k) + seq!['>'])
}

/// A run of characters of class `cl` from `i` to `j`, stopped at `j`, is what `scan` finds.
proof fn lemma_scan_run(t: Seq<char>, i: int, j: int, cl: Class)
    requires
        0 <= i <= j <= t.len(),
        forall|m: int| i <= m < j ==> in_class(#[trigger] t[m], cl),
        j == t.len() || !in_class(t[j], cl),
    ensures
        scan(t, i, cl) == j,
    decreases j - i,
{
    if i < j {
        lemma_scan_run(t, i + 1, j, cl);
    }
}

/// A full reference with a non-empty key free of `"` and a text free of `<`, whatever follows
/// it, is read as one reference with that key and text, ending where the reference ends.
#[verifier::rlimit(40)]
proof fn lemma_full_reference_hit(k: Kind, key: Seq<char>, text: Seq<char>, rest: Seq<char>)
    requires
        key.len() > 0,
        forall|m: int| 0 <= m < key.len() ==> key[m] != '"',
        forall|m: int| 0 <= m < text.len() ==> text[m] != '<',
    ensures
        hit_at(full_reference(k, key, text) + rest, 0, k, Form::Full) == Some(
            Hit { end: full_reference(k, key, text).len() as int, key: key, text: text },
        ),
{
    let tg = tag(k);
    let n = tg.len() as int;
    let p1 = seq!['<'] + tg;
    let p2 = p1 + seq![' '];
    let p3 = p2 + name_attr();
    let p4 = p3 + key;
    let p5 = p4 + seq!['"', '>'];
    let p6 = p5 + text;
    let close = seq!['<', '/'] + tg + seq!['>'];
    let fr = p6 + close;
    assert(fr == full_reference(k, key, text));
    let t = fr + rest;
    let a = 1 + n;
    let b = a + 1;
    let k0 = b + 6;
    let k1 = k0 + key.len();
    let d0 = k1 + 2;
    let d1 = d0 + text.len();
    assert(p6.len() == d1);
    assert(fr.len() == d1 + 3 + n);
    assert forall|m: int| 0 <= m < fr.len() implies t[m] == fr[m] by {}
    // the opening tag
    assert(t.subrange(0, 1 + n) =~= p1);
    // the white space before the attribute
    assert(t[a] == ' ');
    assert(t[b] == 'n');
    lemma_scan_run(t, a, b, Class::Space);
    assert(t.subrange(b, b + 6) =~= name_attr());
    // the key
    assert forall|m: int| k0 <= m < k1 implies in_class(#[trigger] t[m], Class::NotQuote) by {
        assert(t[m] == key[m - k0]);
    }
    assert(t[k1] == '"');
    lemma_scan_run(t, k0, k1, Class::NotQuote);
    assert(t[k1 + 1] == '>');
    lemma_scan_run(t, k1 + 1, k1 + 1, Class::NotGt);
    // the text
    assert forall|m: int| d0 <= m < d1 implies in_class(#[trigger] t[m], Class::NotLt) by {
        assert(t[m] == text[m - d0]);
    }
    assert(t[d1] == '<');
    lemma_scan_run(t, d0, d1, Class::NotLt);
    assert(t.subrange(d1, d1 + 3 + n) =~= close);
    assert(t.subrange(k0, k1) =~= key);
    assert(t.subrange(d0, d1) =~= text);
}

/// A full reference with a non-empty key free of `"` and a text free of `<` is read as one
/// reference with that key and text, and a pass over it gives just its replacement: with a
/// table of its kind that resolves the key, the link to the resolved page and icon showing
/// the text.
pub proof fn law_full_reference_pass(
    k: Kind,
    key: Seq<char>,
    text: Seq<char>,
    lk: Option<LookupView>,
)
    requires
        key.len() > 0,
        forall|m: int| 0 <= m < key.len() ==> key[m] != '"',
        forall|m: int| 0 <= m < text.len() ==> text[m] != '<',
    ensures
        hit_at(full_reference(k, key, text), 0, k, Form::Full) == Some(
            Hit { end: full_reference(k, key, text).len() as int, key: key, text: text },
        ),
        rewrite(full_reference(k, key, text), k, Form::Full, lk) == replacement(
            k,
            Form::Full,
            Hit { end: full_reference(k, key, text).len() as int, key: key, text: text },
            lk,
        ),
        match lk {
            Some(l) => match k {
                Kind::Item => match find_entry(l.items, key) {
                    Some(info) => rewrite(full_reference(k, key, text), k, Form::Full, lk)
                        == item_link(info.wiki_name, info.id, text),
                    None => true,
                },
                Kind::Npc => match find_entry(l.npcs, key) {
                    Some(info) => rewrite(full_reference(k, key, text), k, Form::Full, lk)
                        == npc_link(info.wiki_name, info.id, text),
                    None => true,
                },
            },
            None => true,
        },
{
    let fr = full_reference(k, key, text);
    lemma_full_reference_hit(k, key, text, Seq::empty());
    assert(fr + Seq::<char>::empty() =~= fr);
    let h = Hit { end: fr.len() as int, key: key, text: text };
    assert(rewrite_from(fr, fr.len() as int, k, Form::Full, lk) =~= Seq::<char>::empty());
    assert(rewrite(fr, k, Form::Full, lk) =~= replacement(k, Form::Full, h, lk));
}

/// The end of a run is not before its start.
proof fn lemma_scan_ge(t: Seq<char>, i: int, cl: Class)
    requires
        0 <= i,
    ensures
        scan(t, i, cl) >= i,
    decreases t.len() - i,
{
    if i < t.len() && in_class(t[i], cl) {
        lemma_scan_ge(t, i + 1, cl);
    }
}

/// `scan` reads the same run whatever text comes before.
proof fn lemma_scan_shift(p: Seq<char>, r: Seq<char>, i: int, cl: Class)
    requires
        0 <= i,
    ensures
        scan(p + r, p.len() + i, cl) == p.len() + scan(r, i, cl),
    decreases r.len() - i,
{
    if i < r.len() {
        assert((p + r)[p.len() + i] == r[i]);
        if in_class(r[i], cl) {
            lemma_scan_shift(p, r, i + 1, cl);
        }
    }
}

/// A literal occurs at the same place whatever text comes before.
proof fn lemma_lit_shift(p: Seq<char>, r: Seq<char>, i: int, l: Seq<char>)
    requires
        0 <= i,
    ensures
        lit_at(p + r, p.len() + i, l) == lit_at(r, i, l),
{
    if i + l.len() <= r.len() {
        assert((p + r).subrange(p.len() + i, p.len() + i + l.len()) =~= r.subrange(i, i + l.len()));
    }
}

/// A reference is read the same whatever text comes before; only its end moves.
proof fn lemma_hit_shift(p: Seq<char>, r: Seq<char>, i: int, k: Kind, f: Form)
    requires
        0 <= i,
    ensures
        hit_at(p + r, p.len() + i, k, f) == match hit_at(r, i, k, f) {
            Some(h) => Some(Hit { end: p.len() + h.end, key: h.key, text: h.text }),
            None => None,
        },
{
    let t = p + r;
    let q = p.len() as int;
    let tg = tag(k);
    let n = tg.len() as int;
    match f {
        Form::Full => {
            let a = i + 1 + n;
            lemma_lit_shift(p, r, i, seq!['<'] + tg);
            lemma_scan_shift(p, r, a, Class::Space);
            let b = scan(r, a, Class::Space);
            lemma_scan_ge(r, a, Class::Space);
            lemma_lit_shift(p, r, b, name_attr());
            lemma_scan_shift(p, r, b + 6, Class::NotQuote);
            let k1 = scan(r, b + 6, Class::NotQuote);
            lemma_scan_ge(r, b + 6, Class::NotQuote);
            lemma_scan_shift(p, r, k1 + 1, Class::NotGt);
            let g = scan(r, k1 + 1, Class::NotGt);
            lemma_scan_ge(r, k1 + 1, Class::NotGt);
            lemma_scan_shift(p, r, g + 1, Class::NotLt);
            let d1 = scan(r, g + 1, Class::NotLt);
            lemma_scan_ge(r, g + 1, Class::NotLt);
            lemma_lit_shift(p, r, d1, seq!['<', '/'] + tg + seq!['>']);
            if full_at(r, i, k) is Some {
                lemma_scan(r, a, Class::Space);
                lemma_scan(r, b + 6, Class::NotQuote);
                lemma_scan(r, k1 + 1, Class::NotGt);
                lemma_scan(r, g + 1, Class::NotLt);
                assert(t.subrange(q + b + 6, q + k1) =~= r.subrange(b + 6, k1));
                assert(t.subrange(q + g + 1, q + d1) =~= r.subrange(g + 1, d1));
            }
        },
        Form::Short => {
            lemma_lit_shift(p, r, i, seq!['<'] + tg + seq![':']);
            lemma_scan_shift(p, r, i + 2 + n, Class::Slug);
            let k1 = scan(r, i + 2 + n, Class::Slug);
            lemma_scan_ge(r, i + 2 + n, Class::Slug);
            lemma_lit_shift(p, r, k1, seq!['>']);
            if short_at(r, i, k) is Some {
                lemma_scan(r, i + 2 + n, Class::Slug);
                assert(t.subrange(q + i + 2 + n, q + k1) =~= r.subrange(i + 2 + n, k1));
            }
        },
        Form::Autolink => {
            lemma_lit_shift(p, r, i, seq!['<', 'a']);
            lemma_scan_shift(p, r, i + 2, Class::Space);
            let b = scan(r, i + 2, Class::Space);
            lemma_scan_ge(r, i + 2, Class::Space);
            lemma_lit_shift(p, r, b, href_attr() + tg + seq![':']);
            lemma_scan_shift(p, r, b + 7 + n, Class::Slug);
            let k1 = scan(r, b + 7 + n, Class::Slug);
            lemma_scan_ge(r, b + 7 + n, Class::Slug);
            lemma_lit_shift(p, r, k1, seq!['"', '>']);
            lemma_scan_shift(p, r, k1 + 2, Class::NotLt);
            let d1 = scan(r, k1 + 2, Class::NotLt);
            lemma_scan_ge(r, k1 + 2, Class::NotLt);
            lemma_lit_shift(p, r, d1, seq!['<', '/', 'a', '>']);
            if autolink_at(r, i, k) is Some {
                lemma_scan(r, i + 2, Class::Space);
                lemma_scan(r, b + 7 + n, Class::Slug);
                assert(t.subrange(q + b + 7 + n, q + k1) =~= r.subrange(b + 7 + n, k1));
            }
        },
    }
}

/// A pass treats the text after position `p.len()` as it treats that text alone.
proof fn lemma_rewrite_shift(
    p: Seq<char>,
    r: Seq<char>,
    i: int,
    k: Kind,
    f: Form,
    lk: Option<LookupView>,
)
    requires
        0 <= i,
    ensures
        rewrite_from(p + r, p.len() + i, k, f, lk) == rewrite_from(r, i, k, f, lk),
    decreases r.len() - i,
{
    if i < r.len() {
        lemma_hit_shift(p, r, i, k, f);
        assert((p + r)[p.len() + i] == r[i]);
        match hit_at(r, i, k, f) {
            Some(h) => {
                lemma_hit_bounds(r, i, k, f);
                lemma_rewrite_shift(p, r, h.end, k, f, lk);
            },
            None => {
                lemma_rewrite_shift(p, r, i + 1, k, f, lk);
            },
        }
    }
}

/// A pass replaces a full reference at the start of a text and then goes on with the rest
/// of the text as if the reference had not been there.
pub proof fn law_pass_resumes_after_reference(
    k: Kind,
    key: Seq<char>,
    text: Seq<char>,
    rest: Seq<char>,
    lk: Option<LookupView>,
)
    requires
        key.len() > 0,
        forall|m: int| 0 <= m < key.len() ==> key[m] != '"',
        forall|m: int| 0 <= m < text.len() ==> text[m] != '<',
    ensures
        rewrite(full_reference(k, key, text) + rest, k, Form::Full, lk) == replacement(
            k,
            Form::Full,
            Hit { end: full_reference(k, key, text).len() as int, key: key, text: text },
            lk,
        ) + rewrite(rest, k, Form::Full, lk),
{
    let fr = full_reference(k, key, text);
    lemma_full_reference_hit(k, key, text, rest);
    lemma_rewrite_shift(fr, rest, 0, k, Form::Full, lk);
}

/// The short reference `<tag:key>`.
pub open spec fn short_reference(k: Kind, key: Seq<char>) -> Seq<char> {
    seq!['<'] + tag(k) + seq![':'] + key + seq!['>']
}

/// The autolink `<a href="tag:key">shown</a>`.
pub open spec fn autolink_reference(k: Kind, key: Seq<char>, shown: Seq<char>) -> Seq<char> {
    seq!['<', 'a', ' '] + href_attr() + tag(k) + seq![':'] + key + seq!['"', '>'] + shown + seq![
        '<',
        '/',
        'a',
        '>',
    ]
}

/// A pass replaces a short reference with a non-empty key of lower-case letters, digits and
/// dashes at the start of a text, and goes on with the rest as if it had not been there.
pub proof fn law_short_reference_pass(
    k: Kind,
    key: Seq<char>,
    rest: Seq<char>,
    lk: Option<LookupView>,
)
    requires
        key.len() > 0,
        forall|m: int| 0 <= m < key.len() ==> in_class(#[trigger] key[m], Class::Slug),
    ensures
        rewrite(short_reference(k, key) + rest, k, Form::Short, lk) == replacement(
            k,
            Form::Short,
            Hit { end: short_reference(k, key).len() as int, key: key, text: Seq::empty() },
            lk,
        ) + rewrite(rest, k, Form::Short, lk),
{
    let tg = tag(k);
    let n = tg.len() as int;
    let open = seq!['<'] + tg + seq![':'];
    let p4 = open + key;
    let sr = p4 + seq!['>'];
    assert(sr == short_reference(k, key));
    let t = sr + rest;
    let k0 = 2 + n;
    let k1 = k0 + key.len();
    assert forall|m: int| 0 <= m < sr.len() implies t[m] == sr[m] by {}
    assert(t.subrange(0, 2 + n) =~= open);
    assert forall|m: int| k0 <= m < k1 implies in_class(#[trigger] t[m], Class::Slug) by {
        assert(t[m] == key[m - k0]);
    }
    assert(t[k1] == '>');
    lemma_scan_run(t, k0, k1, Class::Slug);
    assert(t.subrange(k1, k1 + 1) =~= seq!['>']);
    assert(t.subrange(k0, k1) =~= key);
    assert(hit_at(t, 0, k, Form::Short) == Some(
        Hit { end: sr.len() as int, key: key, text: Seq::empty() },
    ));
    lemma_rewrite_shift(sr, rest, 0, k, Form::Short, lk);
}

/// A pass replaces an autolink to a non-empty key of lower-case letters, digits and dashes,
/// showing a text free of `<`, at the start of a text, and goes on with the rest as if it
/// had not been there.
#[verifier::rlimit(40)]
pub proof fn law_autolink_pass(
    k: Kind,
    key: Seq<char>,
    shown: Seq<char>,
    rest: Seq<char>,
    lk: Option<LookupView>,
)
    requires
        key.len() > 0,
        forall|m: int| 0 <= m < key.len() ==> in_class(#[trigger] key[m], Class::Slug),
        forall|m: int| 0 <= m < shown.len() ==> shown[m] != '<',
    ensures
        rewrite(autolink_reference(k, key, shown) + rest, k, Form::Autolink, lk) == replacement(
            k,
            Form::Autolink,
            Hit {
                end: autolink_reference(k, key, shown).len() as int,
                key: key,
                text: Seq::empty(),
            },
            lk,
        ) + rewrite(rest, k, Form::Autolink, lk),
{
    let tg = tag(k);
    let n = tg.len() as int;
    let p1 = seq!['<', 'a', ' '];
    let href = href_attr() + tg + seq![':'];
    let p2 = p1 + href;
    let p3 = p2 + key;
    let p4 = p3 + seq!['"', '>'];
    let p5 = p4 + shown;
    let close = seq!['<', '/', 'a', '>'];
    let ar = p5 + close;
    assert(ar == autolink_reference(k, key, shown));
    let t = ar + rest;
    let b: int = 3;
    let k0 = b + 7 + n;
    let k1 = k0 + key.len();
    let d0 = k1 + 2;
    let d1 = d0 + shown.len();
    assert(ar.len() == d1 + 4);
    assert forall|m: int| 0 <= m < ar.len() implies t[m] == ar[m] by {}
    assert(t.subrange(0, 2) =~= seq!['<', 'a']);
    assert(t[2] == ' ');
    assert(t[3] == 'h');
    lemma_scan_run(t, 2, 3, Class::Space);
    assert(t.subrange(b, k0) =~= href);
    assert forall|m: int| k0 <= m < k1 implies in_class(#[trigger] t[m], Class::Slug) by {
        assert(t[m] == key[m - k0]);
    }
    assert(t[k1] == '"');
    lemma_scan_run(t, k0, k1, Class::Slug);
    assert(t.subrange(k1, k1 + 2) =~= seq!['"', '>']);
    assert forall|m: int| d0 <= m < d1 implies in_class(#[trigger] t[m], Class::NotLt) by {
        assert(t[m] == shown[m - d0]);
    }
    assert(t[d1] == '<');
    lemma_scan_run(t, d0, d1, Class::NotLt);
    assert(t.subrange(d1, d1 + 4) =~= close);
    assert(t.subrange(k0, k1) =~= key);
    assert(hit_at(t, 0, k, Form::Autolink) == Some(
        Hit { end: ar.len() as int, key: key, text: Seq::empty() },
    ));
    lemma_rewrite_shift(ar, rest, 0, k, Form::Autolink, lk);
}

// ---------------------------------------------------------------------------
// Executable scanner
// ---------------------------------------------------------------------------

/// A reference found in a text.
pub struct Found {
    pub end: usize,
    pub key: Vec<char>,
    pub text: Vec<char>,
}

impl View for Found {
    type V = Hit;

    open spec fn view(&self) -> Hit {
        Hit { end: self.end as int, key: self.key@, text: self.text@ }
    }
}

/// The tag name of a kind of reference.
fn tag_chars(k: Kind) -> (r: Vec<char>)
    ensures
        r@ == tag(k),
{
    match k {
        Kind::Item => vec!['i', 't', 'e', 'm'],
        Kind::Npc => vec!['n', 'p', 'c'],
    }
}

/// `a` followed by `b`.
fn concat(a: &Vec<char>, b: &Vec<char>) -> (r: Vec<char>)
    ensures
        r@ == a@ + b@,
{
    let mut r: Vec<char> = Vec::new();
    let mut i: usize = 0;
    while i < a.len()
        invariant
            i <= a.len(),
            r@ == a@.take(i as int),
        decreases a.len() - i,
    {
        r.push(a[i]);
        assert(a@.take(i + 1) =~= a@.take(i as int).push(a@[i as int]));
        i = i + 1;
    }
    let mut j: usize = 0;
    while j < b.len()
        invariant
            j <= b.len(),
            r@ == a@ + b@.take(j as int),
        decreases b.len() - j,
    {
        r.push(b[j]);
        assert(b@.take(j + 1) =~= b@.take(j as int).push(b@[j as int]));
        j = j + 1;
    }
    assert(a@.take(a.len() as int) =~= a@);
    assert(b@.take(b.len() as int) =~= b@);
    r
}

/// Whether `c` belongs to the class `cl`.
fn in_class_exec(c: char, cl: Class) -> (r: bool)
    ensures
        r == in_class(c, cl),
{
    match cl {
        Class::Space => crate::text::is_space(c),
        Class::NotQuote => c != '"',
        Class::NotGt => c != '>',
        Class::NotLt => c != '<',
        Class::Slug => ('a' <= c && c <= 'z') || ('0' <= c && c <= '9') || c == '-',
    }
}

/// The end of the run of class `cl` starting at `i`.
fn scan_exec(t: &Vec<char>, i: usize, cl: Class) -> (r: usize)
    requires
        i <= t.len(),
    ensures
        r == scan(t@, i as int, cl),
        i <= r <= t.len(),
{
    let mut j = i;
    while j < t.len() && in_class_exec(t[j], cl)
        invariant
            i <= j <= t.len(),
            scan(t@, j as int, cl) == scan(t@, i as int, cl),
        decreases t.len() - j,
    {
        j = j + 1;
    }
    j
}

/// Whether `l` occurs in `t` at `i`.
fn lit_at_exec(t: &Vec<char>, i: usize, l: &Vec<char>) -> (r: bool)
    ensures
        r == lit_at(t@, i as int, l@),
{
    if l.len() > t.len() || i > t.len() - l.len() {
        return false;
    }
    let mut m: usize = 0;
    while m < l.len()
        invariant
            m <= l.len(),
            i + l.len() <= t.len(),
            forall|x: int| 0 <= x < m ==> t@[i + x] == l@[x],
        decreases l.len() - m,
    {
        if t[i + m] != l[m] {
            assert(t@.subrange(i as int, i + l.len())[m as int] != l@[m as int]);
            return false;
        }
        m = m + 1;
    }
    assert(t@.subrange(i as int, i + l.len()) =~= l@);
    true
}

/// The characters `t[a..b]`.
fn slice_chars(t: &Vec<char>, a: usize, b: usize) -> (r: Vec<char>)
    requires
        a <= b <= t.len(),
    ensures
        r@ == t@.subrange(a as int, b as int),
{
    let mut r: Vec<char> = Vec::new();
    let mut i = a;
    while i < b
        invariant
            a <= i <= b <= t.len(),
            r@ == t@.subrange(a as int, i as int),
        decreases b - i,
    {
        r.push(t[i]);
        assert(t@.subrange(a as int, i + 1) =~= t@.subrange(a as int, i as int).push(t@[i as int]));
        i = i + 1;
    }
    r
}

/// The full reference of kind `k` at `i`, if there is one.
fn full_at_exec(t: &Vec<char>, i: usize, k: Kind) -> (r: Option<Found>)
    requires
        i < t.len(),
    ensures
        match r {
            Some(h) => full_at(t@, i as int, k) == Some(h@),
            None => full_at(t@, i as int, k) is None,
        },
{
    let tg = tag_chars(k);
    let open = concat(&vec!['<'], &tg);
    assert(open@ =~= seq!['<'] + tag(k));
    if !lit_at_exec(t, i, &open) {
        return None;
    }
    let a = i + 1 + tg.len();
    let b = scan_exec(t, a, Class::Space);
    let name = vec!['n', 'a', 'm', 'e', '=', '"'];
    assert(name@ =~= name_attr());
    if !(b > a && lit_at_exec(t, b, &name)) {
        return None;
    }
    let k0 = b + 6;
    let k1 = scan_exec(t, k0, Class::NotQuote);
    if !(k1 > k0 && k1 < t.len()) {
        return None;
    }
    let g = scan_exec(t, k1 + 1, Class::NotGt);
    if !(g < t.len()) {
        return None;
    }
    let d1 = scan_exec(t, g + 1, Class::NotLt);
    let close = concat(&concat(&vec!['<', '/'], &tg), &vec!['>']);
    assert(close@ =~= seq!['<', '/'] + tag(k) + seq!['>']);
    if !lit_at_exec(t, d1, &close) {
        return None;
    }
    let key = slice_chars(t, k0, k1);
    let text = slice_chars(t, g + 1, d1);
    Some(Found { end: d1 + 3 + tg.len(), key, text })
}

/// The short reference of kind `k` at `i`, if there is one.
fn short_at_exec(t: &Vec<char>, i: usize, k: Kind) -> (r: Option<Found>)
    requires
        i < t.len(),
    ensures
        match r {
            Some(h) => short_at(t@, i as int, k) == Some(h@),
            None => short_at(t@, i as int, k) is None,
        },
{
    let tg = tag_chars(k);
    let open = concat(&concat(&vec!['<'], &tg), &vec![':']);
    assert(open@ =~= seq!['<'] + tag(k) + seq![':']);
    if !lit_at_exec(t, i, &open) {
        return None;
    }
    let k0 = i + 2 + tg.len();
    let k1 = scan_exec(t, k0, Class::Slug);
    let gt = vec!['>'];
    assert(gt@ =~= seq!['>']);
    if !(k1 > k0 && lit_at_exec(t, k1, &gt)) {
        return None;
    }
    let key = slice_chars(t, k0, k1);
    Some(Found { end: k1 + 1, key, text: Vec::new() })
}

/// The autolink of kind `k` at `i`, if there is one.
fn autolink_at_exec(t: &Vec<char>, i: usize, k: Kind) -> (r: Option<Found>)
    requires
        i < t.len(),
    ensures
        match r {
            Some(h) => autolink_at(t@, i as int, k) == Some(h@),
            None => autolink_at(t@, i as int, k) is None,
        },
{
    let tg = tag_chars(k);
    let open = vec!['<', 'a'];
    assert(open@ =~= seq!['<', 'a']);
    if !lit_at_exec(t, i, &open) {
        return None;
    }
    let a = i + 2;
    let b = scan_exec(t, a, Class::Space);
    let href = concat(&concat(&vec!['h', 'r', 'e', 'f', '=', '"'], &tg), &vec![':']);
    assert(href@ =~= href_attr() + tag(k) + seq![':']);
    if !(b > a && lit_at_exec(t, b, &href)) {
        return None;
    }
    let k0 = b + 7 + tg.len();
    let k1 = scan_exec(t, k0, Class::Slug);
    let qgt = vec!['"', '>'];
    assert(qgt@ =~= seq!['"', '>']);
    if !(k1 > k0 && lit_at_exec(t, k1, &qgt)) {
        return None;
    }
    let d1 = scan_exec(t, k1 + 2, Class::NotLt);
    let close = vec!['<', '/', 'a', '>'];
    assert(close@ =~= seq!['<', '/', 'a', '>']);
    if !lit_at_exec(t, d1, &close) {
        return None;
    }
    let key = slice_chars(t, k0, k1);
    Some(Found { end: d1 + 4, key, text: Vec::new() })
}

/// The reference of kind `k` in form `f` at `i`, if there is one.
fn hit_at_exec(t: &Vec<char>, i: usize, k: Kind, f: Form) -> (r: Option<Found>)
    requires
        i < t.len(),
    ensures
        match r {
            Some(h) => hit_at(t@, i as int, k, f) == Some(h@),
            None => hit_at(t@, i as int, k, f) is None,
        },
{
    match f {
        Form::Full => full_at_exec(t, i, k),
        Form::Short => short_at_exec(t, i, k),
        Form::Autolink => autolink_at_exec(t, i, k),
    }
}

/// The link for a reference of kind `k` to `page` with icon `icon` showing `text`.
fn link_exec(k: Kind, page: &str, icon: &str, text: &str) -> (r: String)
    ensures
        r@ == link(k, page@, icon@, text@),
{
    match k {
        Kind::Item => item_link_with_id(page, icon, text),
        Kind::Npc => npc_link_with_id(page, icon, text),
    }
}

/// The replacement of the reference `h`.
fn replacement_exec(k: Kind, f: Form, h: &Found, lk: Option<&LookupData>) -> (r: String)
    ensures
        r@ == replacement(k, f, h@, lookup_view(lk)),
{
    let key = string_of(&h.key);
    let shown = match f {
        Form::Full => string_of(&h.text),
        _ => id_to_display_name(key.as_str()),
    };
    let found = match lk {
        Some(l) => match k {
            Kind::Item => l.find_item(key.as_str()),
            Kind::Npc => l.find_npc(key.as_str()),
        },
        None => None,
    };
    match found {
        Some(info) => link_exec(k, info.wiki_name.as_str(), info.id.as_str(), shown.as_str()),
        None => link_exec(k, key.as_str(), key.as_str(), shown.as_str()),
    }
}

/// `t` with every reference of kind `k` in form `f` replaced.
fn rewrite_exec(t: &Vec<char>, k: Kind, f: Form, lk: Option<&LookupData>) -> (r: String)
    ensures
        r@ == rewrite(t@, k, f, lookup_view(lk)),
{
    let ghost lv = lookup_view(lk);
    let mut out = String::new();
    let mut i: usize = 0;
    while i < t.len()
        invariant
            i <= t.len(),
            lv == lookup_view(lk),
            rewrite(t@, k, f, lv) == out@ + rewrite_from(t@, i as int, k, f, lv),
        decreases t.len() - i,
    {
        match hit_at_exec(t, i, k, f) {
            Some(h) => {
                proof {
                    lemma_hit_bounds(t@, i as int, k, f);
                }
                let rep = replacement_exec(k, f, &h, lk);
                push_str(&mut out, rep.as_str());
                i = h.end;
            },
            None => {
                push_char(&mut out, t[i]);
                i = i + 1;
            },
        }
    }
    assert(out@ =~= out@ + rewrite_from(t@, i as int, k, f, lv));
    out
}

/// Replaces the item and NPC references of `text` by links with icons: the full forms
/// `<item name="key">text</item>` and `<npc name="key">text</npc>`, the short forms
/// `<item:key>` and `<npc:key>`, and the autolinks `<a href="item:key">..</a>` and
/// `<a href="npc:key">..</a>` that markdown makes of the short forms. A key resolves
/// through `lookup` when it is given and knows the key; otherwise the key itself names
/// the page and the icon.
pub fn linkify_references(text: &str, lookup: Option<&LookupData>) -> (r: String)
    ensures
        r@ == linkify(text@, lookup_view(lookup)),
{
    let t0 = chars_of(text);
    let r1 = rewrite_exec(&t0, Kind::Item, Form::Full, lookup);
    let t1 = chars_of(r1.as_str());
    let r2 = rewrite_exec(&t1, Kind::Npc, Form::Full, lookup);
    let t2 = chars_of(r2.as_str());
    let r3 = rewrite_exec(&t2, Kind::Item, Form::Short, lookup);
    let t3 = chars_of(r3.as_str());
    let r4 = rewrite_exec(&t3, Kind::Npc, Form::Short, lookup);
    let t4 = chars_of(r4.as_str());
    let r5 = rewrite_exec(&t4, Kind::Item, Form::Autolink, lookup);
    let t5 = chars_of(r5.as_str());
    rewrite_exec(&t5, Kind::Npc, Form::Autolink, lookup)
}

// ---------------------------------------------------------------------------
// Item types
// ---------------------------------------------------------------------------

/// The link to the item list filtered by `item_type`: the type lower-cased with spaces as
/// dashes goes in the query, the type itself is shown.
pub open spec fn type_link(item_type: Seq<char>) -> Seq<char> {
    "<a href=\"/items/?type="@ + replace_char(lowercase(item_type), ' ', seq!['-'])
        + "\" class=\"type-link\">"@ + item_type + "</a>"@
}

/// Generates an item type link.
pub fn item_type_link(item_type: &str) -> (r: String)
    ensures
        r@ == type_link(item_type@),
{
    let lower = to_lowercase(item_type);
    let slug = replace_chars(&chars_of(lower.as_str()), ' ', '-');
    let mut r = String::new();
    push_str(&mut r, "<a href=\"/items/?type=");
    push_chars(&mut r, &slug);
    push_str(&mut r, "\" class=\"type-link\">");
    push_str(&mut r, item_type);
    push_str(&mut r, "</a>");
    r
}

} // verus!
