//! Lookup tables that resolve item and NPC references of the markup to their pages.
use vstd::prelude::*;

use crate::data::{Item, Npc};
use crate::text::{chars_of, lowercase, replace_char, replace_chars, string_of, to_lowercase};

verus! {

broadcast use vstd::string::group_string_axioms;

/// Where a resolved reference points: the wiki page name and the icon id.
pub struct LinkInfo {
    pub id: String,
    pub wiki_name: String,
}

/// The contents of a `LinkInfo`.
pub struct InfoView {
    pub id: Seq<char>,
    pub wiki_name: Seq<char>,
}

impl View for LinkInfo {
    type V = InfoView;

    open spec fn view(&self) -> InfoView {
        InfoView { id: self.id@, wiki_name: self.wiki_name@ }
    }
}

/// A table: its keys, each with the place it resolves to, in the order keys were first added.
pub type Entries = Seq<(Seq<char>, InfoView)>;

/// The contents of a list of table rows.
pub open spec fn entry_views(v: Seq<(String, LinkInfo)>) -> Entries {
    v.map_values(|e: (String, LinkInfo)| (e.0@, e.1@))
}

/// The contents of both tables of a `LookupData`.
pub struct LookupView {
    pub items: Entries,
    pub npcs: Entries,
}

/// The tables used to resolve references: one for items and one for NPCs.
pub struct LookupData {
    items: Vec<(String, LinkInfo)>,
    npcs: Vec<(String, LinkInfo)>,
}

impl View for LookupData {
    type V = LookupView;

    closed spec fn view(&self) -> LookupView {
        LookupView { items: entry_views(self.items@), npcs: entry_views(self.npcs@) }
    }
}

// ---------------------------------------------------------------------------
// Table model
// ---------------------------------------------------------------------------

/// `j` is the first row of `es` whose key is `k`.
pub open spec fn is_first_key(es: Entries, k: Seq<char>, j: int) -> bool {
    &&& 0 <= j < es.len()
    &&& es[j].0 == k
    &&& forall|m: int| 0 <= m < j ==> (#[trigger] es[m]).0 != k
}

/// The first row of `es` whose key is `k`, if any.
pub open spec fn key_row(es: Entries, k: Seq<char>) -> Option<int> {
    if exists|j: int| is_first_key(es, k, j) {
        Some(choose|j: int| is_first_key(es, k, j))
    } else {
        None
    }
}

/// `j` is the first row of `es` whose key starts with `p`.
pub open spec fn is_first_prefixed(es: Entries, p: Seq<char>, j: int) -> bool {
    &&& 0 <= j < es.len()
    &&& p.is_prefix_of(es[j].0)
    &&& forall|m: int| 0 <= m < j ==> !p.is_prefix_of((#[trigger] es[m]).0)
}

/// The first row of `es` whose key starts with `p`, if any.
pub open spec fn prefixed_row(es: Entries, p: Seq<char>) -> Option<int> {
    if exists|j: int| is_first_prefixed(es, p, j) {
        Some(choose|j: int| is_first_prefixed(es, p, j))
    } else {
        None
    }
}

/// `es` after `k` is set to `v`: the row with key `k` is overwritten, or a row is added.
pub open spec fn insert_entry(es: Entries, k: Seq<char>, v: InfoView) -> Entries {
    match key_row(es, k) {
        Some(j) => es.update(j, (k, v)),
        None => es.push((k, v)),
    }
}

/// No key occurs twice in `es`.
pub open spec fn keys_distinct(es: Entries) -> bool {
    forall|a: int, b: int| 0 <= a < b < es.len() ==> (#[trigger] es[a]).0 != (#[trigger] es[b]).0
}

/// The key under which a name is looked up: lower case, spaces turned into dashes.
pub open spec fn name_key(name: Seq<char>) -> Seq<char> {
    replace_char(lowercase(name), ' ', seq!['-'])
}

/// The place a definition with id `id` resolves to: its page and its icon are both named by the id.
pub open spec fn info_for(id: Seq<char>) -> InfoView {
    InfoView { id: id, wiki_name: id }
}

/// A definition as the tables see it: its name and its id.
pub type Def = (Seq<char>, Seq<char>);

/// The table built from `defs`: each definition, in order, sets its name key and then its
/// id to the place its id names.
pub open spec fn defs_entries(defs: Seq<Def>) -> Entries
    decreases defs.len(),
{
    if defs.len() == 0 {
        Seq::empty()
    } else {
        let (name, id) = defs.last();
        insert_entry(
            insert_entry(defs_entries(defs.drop_last()), name_key(name), info_for(id)),
            id,
            info_for(id),
        )
    }
}

/// The definitions that `items` make.
pub open spec fn item_defs(items: Seq<Item>) -> Seq<Def> {
    items.map_values(|it: Item| (it.name@, it.id@))
}

/// The definitions that `npcs` make.
pub open spec fn npc_defs(npcs: Seq<Npc>) -> Seq<Def> {
    npcs.map_values(|n: Npc| (n.name@, n.id@))
}

/// The item table built from `items`.
pub open spec fn item_entries(items: Seq<Item>) -> Entries {
    defs_entries(item_defs(items))
}

/// The NPC table built from `npcs`.
pub open spec fn npc_entries(npcs: Seq<Npc>) -> Entries {
    defs_entries(npc_defs(npcs))
}

/// What looking `key` up in `es` gives: the row whose key is `key` lower-cased; failing
/// that, the first row whose key starts with it followed by a dash.
pub open spec fn find_entry(es: Entries, key: Seq<char>) -> Option<InfoView> {
    let k = lowercase(key);
    match key_row(es, k) {
        Some(j) => Some(es[j].1),
        None => match prefixed_row(es, k + seq!['-']) {
            Some(j) => Some(es[j].1),
            None => None,
        },
    }
}

// ---------------------------------------------------------------------------
// Laws of the table model
// ---------------------------------------------------------------------------

/// A first row with a given key is unique.
pub proof fn lemma_key_row_unique(es: Entries, k: Seq<char>, j: int)
    requires
        is_first_key(es, k, j),
    ensures
        key_row(es, k) == Some(j),
{
    let c = choose|i: int| is_first_key(es, k, i);
    assert(c == j) by {
        if c < j {
            assert(es[c].0 != k);
        }
        if c > j {
            assert(es[j].0 != k);
        }
    }
}

/// In a table without repeated keys, the row holding `k` is the one `key_row` finds.
pub proof fn lemma_key_row_distinct(es: Entries, k: Seq<char>, j: int)
    requires
        keys_distinct(es),
        0 <= j < es.len(),
        es[j].0 == k,
    ensures
        key_row(es, k) == Some(j),
{
    assert forall|m: int| 0 <= m < j implies (#[trigger] es[m]).0 != k by {
        assert(es[m].0 != es[j].0);
    }
    lemma_key_row_unique(es, k, j);
}

/// Setting a key keeps the keys distinct, makes the key resolve to the new place, and
/// leaves every other key where it was.
pub proof fn lemma_insert_entry(es: Entries, k: Seq<char>, v: InfoView)
    requires
        keys_distinct(es),
    ensures
        keys_distinct(insert_entry(es, k, v)),
        key_row(insert_entry(es, k, v), k) matches Some(j) && insert_entry(es, k, v)[j].1 == v,
        forall|k2: Seq<char>|
            k2 != k ==> #[trigger] key_row(insert_entry(es, k, v), k2) == key_row(es, k2),
{
    let r = insert_entry(es, k, v);
    match key_row(es, k) {
        Some(j) => {
            assert(is_first_key(es, k, j));
            assert(keys_distinct(r)) by {
                assert forall|a: int, b: int| 0 <= a < b < r.len() implies (#[trigger] r[a]).0 != (
                #[trigger] r[b]).0 by {
                    assert(es[a].0 != es[b].0);
                }
            }
            lemma_key_row_distinct(r, k, j);
            assert forall|k2: Seq<char>| k2 != k implies #[trigger] key_row(r, k2) == key_row(
                es,
                k2,
            ) by {
                if exists|i: int| is_first_key(es, k2, i) {
                    let i = choose|i: int| is_first_key(es, k2, i);
                    lemma_key_row_distinct(r, k2, i);
                } else {
                    assert forall|i: int| !is_first_key(r, k2, i) by {
                        if is_first_key(r, k2, i) {
                            assert(is_first_key(es, k2, i));
                        }
                    }
                }
            }
        },
        None => {
            assert forall|i: int| 0 <= i < es.len() implies es[i].0 != k by {
                if es[i].0 == k {
                    lemma_key_row_distinct(es, k, i);
                }
            }
            assert(keys_distinct(r)) by {
                assert forall|a: int, b: int| 0 <= a < b < r.len() implies (#[trigger] r[a]).0 != (
                #[trigger] r[b]).0 by {
                    if b < es.len() {
                        assert(es[a].0 != es[b].0);
                    }
                }
            }
            lemma_key_row_distinct(r, k, es.len() as int);
            assert forall|k2: Seq<char>| k2 != k implies #[trigger] key_row(r, k2) == key_row(
                es,
                k2,
            ) by {
                if exists|i: int| is_first_key(es, k2, i) {
                    let i = choose|i: int| is_first_key(es, k2, i);
                    lemma_key_row_distinct(r, k2, i);
                } else {
                    assert forall|i: int| !is_first_key(r, k2, i) by {
                        if is_first_key(r, k2, i) && i < es.len() {
                            assert(is_first_key(es, k2, i));
                        }
                    }
                }
            }
        },
    }
}

/// Every key occurs once in a table built from definitions.
pub proof fn law_keys_distinct(defs: Seq<Def>)
    ensures
        keys_distinct(defs_entries(defs)),
    decreases defs.len(),
{
    if defs.len() > 0 {
        let (name, id) = defs.last();
        law_keys_distinct(defs.drop_last());
        let e0 = defs_entries(defs.drop_last());
        lemma_insert_entry(e0, name_key(name), info_for(id));
        lemma_insert_entry(insert_entry(e0, name_key(name), info_for(id)), id, info_for(id));
    }
}

/// The id of every definition is a key of the table built from the definitions.
pub proof fn lemma_id_is_key(defs: Seq<Def>, j: int)
    requires
        0 <= j < defs.len(),
    ensures
        key_row(defs_entries(defs), defs[j].1) is Some,
    decreases defs.len(),
{
    let (name, id) = defs.last();
    let e0 = defs_entries(defs.drop_last());
    law_keys_distinct(defs.drop_last());
    lemma_insert_entry(e0, name_key(name), info_for(id));
    let e1 = insert_entry(e0, name_key(name), info_for(id));
    lemma_insert_entry(e1, id, info_for(id));
    if j < defs.len() - 1 {
        lemma_id_is_key(defs.drop_last(), j);
        assert(defs.drop_last()[j] == defs[j]);
    }
}

/// A definition, once loaded, can be found by its id, provided the id is in lower case
/// (the key being looked up is lower-cased first).
pub proof fn law_found_by_id(defs: Seq<Def>, j: int)
    requires
        0 <= j < defs.len(),
        lowercase(defs[j].1) == defs[j].1,
    ensures
        find_entry(defs_entries(defs), defs[j].1) is Some,
{
    lemma_id_is_key(defs, j);
}

/// The last definition loaded wins its id: looking the id up (in lower case) gives the
/// place that definition names.
pub proof fn law_last_definition_wins(defs: Seq<Def>)
    requires
        defs.len() > 0,
        lowercase(defs.last().1) == defs.last().1,
    ensures
        find_entry(defs_entries(defs), defs.last().1) == Some(info_for(defs.last().1)),
{
    let (name, id) = defs.last();
    let e0 = defs_entries(defs.drop_last());
    law_keys_distinct(defs.drop_last());
    lemma_insert_entry(e0, name_key(name), info_for(id));
    lemma_insert_entry(insert_entry(e0, name_key(name), info_for(id)), id, info_for(id));
}

/// If some row of `es` has key `k`, a first such row exists.
proof fn lemma_first_key_exists(es: Entries, k: Seq<char>, j: int)
    requires
        0 <= j < es.len(),
        es[j].0 == k,
    ensures
        exists|i: int| is_first_key(es, k, i),
    decreases j,
{
    if exists|m: int| 0 <= m < j && es[m].0 == k {
        let m = choose|m: int| 0 <= m < j && es[m].0 == k;
        lemma_first_key_exists(es, k, m);
    } else {
        assert(is_first_key(es, k, j));
    }
}

/// If some row of `es` has a key starting with `p`, a first such row exists.
proof fn lemma_first_prefixed_exists(es: Entries, p: Seq<char>, j: int)
    requires
        0 <= j < es.len(),
        p.is_prefix_of(es[j].0),
    ensures
        exists|i: int| is_first_prefixed(es, p, i),
    decreases j,
{
    if exists|m: int| 0 <= m < j && p.is_prefix_of(es[m].0) {
        let m = choose|m: int| 0 <= m < j && p.is_prefix_of(es[m].0);
        lemma_first_prefixed_exists(es, p, m);
    } else {
        assert(is_first_prefixed(es, p, j));
    }
}

/// What a lookup of `key` answers, in terms of the table's rows, with `k` the key
/// lower-cased:
/// - when some row has key `k`, the answer is the place of such a row (the first);
/// - otherwise, when some row's key begins with `k` followed by `-` (a slug written
///   without its numeric suffix), the answer is the place of such a row (the first);
/// - otherwise there is no answer.
pub proof fn law_find_exact_then_prefix(es: Entries, key: Seq<char>)
    ensures
        ({
            let k = lowercase(key);
            let p = lowercase(key) + seq!['-'];
            &&& (exists|j: int| 0 <= j < es.len() && (#[trigger] es[j]).0 == k) ==> exists|j: int|
                #![trigger es[j]]
                0 <= j < es.len() && es[j].0 == k && find_entry(es, key) == Some(es[j].1) && forall|
                    m: int,
                | 0 <= m < j ==> (#[trigger] es[m]).0 != k
            &&& (forall|j: int| 0 <= j < es.len() ==> (#[trigger] es[j]).0 != k) && (exists|j: int|
                0 <= j < es.len() && p.is_prefix_of((#[trigger] es[j]).0)) ==> exists|j: int|
                #![trigger es[j]]
                0 <= j < es.len() && p.is_prefix_of(es[j].0) && find_entry(es, key) == Some(es[j].1)
                    && forall|m: int| 0 <= m < j ==> !p.is_prefix_of((#[trigger] es[m]).0)
            &&& (forall|j: int| 0 <= j < es.len() ==> (#[trigger] es[j]).0 != k) && (forall|j: int|
                0 <= j < es.len() ==> !p.is_prefix_of((#[trigger] es[j]).0)) ==> find_entry(es, key)
                is None
        }),
{
    let k = lowercase(key);
    let p = lowercase(key) + seq!['-'];
    if exists|j: int| 0 <= j < es.len() && (#[trigger] es[j]).0 == k {
        let j = choose|j: int| 0 <= j < es.len() && (#[trigger] es[j]).0 == k;
        lemma_first_key_exists(es, k, j);
        let f = choose|i: int| is_first_key(es, k, i);
        assert(is_first_key(es, k, f));
        assert(key_row(es, k) == Some(f));
        assert(find_entry(es, key) == Some(es[f].1));
    } else {
        assert(forall|i: int| !is_first_key(es, k, i));
        assert(key_row(es, k) is None);
        if exists|j: int| 0 <= j < es.len() && p.is_prefix_of((#[trigger] es[j]).0) {
            let j = choose|j: int| 0 <= j < es.len() && p.is_prefix_of((#[trigger] es[j]).0);
            lemma_first_prefixed_exists(es, p, j);
            let f = choose|i: int| is_first_prefixed(es, p, i);
            assert(is_first_prefixed(es, p, f));
            assert(find_entry(es, key) == Some(es[f].1));
        } else {
            assert(forall|i: int| !is_first_prefixed(es, p, i));
        }
    }
}

/// A reference written as a loaded definition's id without its suffix resolves: when no
/// key equals the reference lower-cased but some definition's id begins with it followed
/// by `-`, the lookup answers with the place of a row whose key begins so.
pub proof fn law_slug_without_suffix_found(defs: Seq<Def>, j: int, key: Seq<char>)
    requires
        0 <= j < defs.len(),
        (lowercase(key) + seq!['-']).is_prefix_of(defs[j].1),
        forall|i: int|
            0 <= i < defs_entries(defs).len() ==> (#[trigger] defs_entries(defs)[i]).0 != lowercase(
                key,
            ),
    ensures
        exists|i: int|
            #![trigger defs_entries(defs)[i]]
            0 <= i < defs_entries(defs).len() && (lowercase(key) + seq!['-']).is_prefix_of(
                defs_entries(defs)[i].0,
            ) && find_entry(defs_entries(defs), key) == Some(defs_entries(defs)[i].1),
{
    let es = defs_entries(defs);
    lemma_id_is_key(defs, j);
    let r = choose|i: int| is_first_key(es, defs[j].1, i);
    assert(is_first_key(es, defs[j].1, r));
    assert((lowercase(key) + seq!['-']).is_prefix_of(es[r].0));
    law_find_exact_then_prefix(es, key);
}

// ---------------------------------------------------------------------------
// Executable table operations
// ---------------------------------------------------------------------------

/// Sets `key` to `info` in the table `rows`.
fn insert_row(rows: &mut Vec<(String, LinkInfo)>, key: String, info: LinkInfo)
    ensures
        entry_views(final(rows)@) == insert_entry(entry_views(old(rows)@), key@, info@),
{
    let ghost es = entry_views(rows@);
    let mut i: usize = 0;
    while i < rows.len()
        invariant
            i <= rows.len(),
            es == entry_views(rows@),
            rows@ == old(rows)@,
            forall|m: int| 0 <= m < i ==> (#[trigger] es[m]).0 != key@,
        decreases rows.len() - i,
    {
        if rows[i].0 == key {
            proof {
                lemma_key_row_unique(es, key@, i as int);
            }
            let ghost kv = key@;
            let ghost iv = info@;
            rows.set(i, (key, info));
            assert(entry_views(rows@) =~= es.update(i as int, (kv, iv)));
            assert(key_row(es, kv) == Some(i as int));
            assert(insert_entry(es, kv, iv) == es.update(i as int, (kv, iv)));
            return ;
        }
        i = i + 1;
    }
    assert(!exists|j: int| is_first_key(es, key@, j));
    let ghost kv = key@;
    let ghost iv = info@;
    rows.push((key, info));
    assert(entry_views(rows@) =~= es.push((kv, iv)));
}

/// Whether the characters `p` begin the characters `s`.
fn starts_with(s: &Vec<char>, p: &Vec<char>) -> (r: bool)
    ensures
        r == p@.is_prefix_of(s@),
{
    if p.len() > s.len() {
        return false;
    }
    let mut i: usize = 0;
    while i < p.len()
        invariant
            i <= p.len() <= s.len(),
            forall|m: int| 0 <= m < i ==> p@[m] == s@[m],
        decreases p.len() - i,
    {
        if p[i] != s[i] {
            return false;
        }
        i = i + 1;
    }
    assert(s@.subrange(0, p@.len() as int) =~= p@);
    true
}

/// Looks `key` up in `rows` as `find_entry` says.
fn find_row<'a>(rows: &'a Vec<(String, LinkInfo)>, key: &str) -> (r: Option<&'a LinkInfo>)
    ensures
        match r {
            Some(info) => find_entry(entry_views(rows@), key@) == Some(info@),
            None => find_entry(entry_views(rows@), key@) is None,
        },
{
    let ghost es = entry_views(rows@);
    let key_lower = to_lowercase(key);
    let mut i: usize = 0;
    while i < rows.len()
        invariant
            i <= rows.len(),
            es == entry_views(rows@),
            key_lower@ == lowercase(key@),
            forall|m: int| 0 <= m < i ==> (#[trigger] es[m]).0 != key_lower@,
        decreases rows.len() - i,
    {
        if rows[i].0 == key_lower {
            proof {
                lemma_key_row_unique(es, key_lower@, i as int);
            }
            return Some(&rows[i].1);
        }
        i = i + 1;
    }
    assert(!exists|j: int| is_first_key(es, key_lower@, j));
    assert(key_row(es, lowercase(key@)) is None);
    let mut prefix = chars_of(key_lower.as_str());
    prefix.push('-');
    let ghost p = prefix@;
    assert(p =~= lowercase(key@) + seq!['-']);
    let mut i: usize = 0;
    while i < rows.len()
        invariant
            i <= rows.len(),
            es == entry_views(rows@),
            p == prefix@,
            p == lowercase(key@) + seq!['-'],
            key_row(es, lowercase(key@)) is None,
            forall|m: int| 0 <= m < i ==> !p.is_prefix_of((#[trigger] es[m]).0),
        decreases rows.len() - i,
    {
        let k = chars_of(rows[i].0.as_str());
        if starts_with(&k, &prefix) {
            proof {
                assert(es[i as int].0 == k@);
                assert(p.is_prefix_of(es[i as int].0));
                assert(is_first_prefixed(es, p, i as int));
                let c = choose|j: int| is_first_prefixed(es, p, j);
                assert(c == i) by {
                    if c < i {
                        assert(!p.is_prefix_of(es[c].0));
                    }
                    if c > i {
                        assert(!p.is_prefix_of(es[i as int].0));
                    }
                }
            }
            return Some(&rows[i].1);
        }
        i = i + 1;
    }
    assert(!exists|j: int| is_first_prefixed(es, p, j));
    None
}

/// The key under which `name` is looked up.
fn key_of_name(name: &str) -> (r: String)
    ensures
        r@ == name_key(name@),
{
    let lower = to_lowercase(name);
    let cs = chars_of(lower.as_str());
    let replaced = replace_chars(&cs, ' ', '-');
    string_of(&replaced)
}

/// The place a definition with id `id` resolves to.
fn info_of(id: &String) -> (r: LinkInfo)
    ensures
        r@ == info_for(id@),
{
    LinkInfo { id: id.clone(), wiki_name: id.clone() }
}

impl LookupData {
    /// Builds the tables: every item, then every NPC, in order, is entered under its name
    /// (lower case, spaces as dashes) and under its id; a later definition wins a key that
    /// an earlier one set.
    pub fn new(items: &[Item], npcs: &[Npc]) -> (r: LookupData)
        ensures
            r@.items == item_entries(items@),
            r@.npcs == npc_entries(npcs@),
    {
        let mut item_rows: Vec<(String, LinkInfo)> = Vec::new();
        let mut i: usize = 0;
        while i < items.len()
            invariant
                i <= items.len(),
                entry_views(item_rows@) == item_entries(items@.take(i as int)),
            decreases items.len() - i,
        {
            let it = &items[i];
            assert(item_defs(items@.take(i + 1)).drop_last() =~= item_defs(items@.take(i as int)));
            assert(item_defs(items@.take(i + 1)).last() == (it.name@, it.id@));
            insert_row(&mut item_rows, key_of_name(it.name.as_str()), info_of(&it.id));
            insert_row(&mut item_rows, it.id.clone(), info_of(&it.id));
            i = i + 1;
        }
        assert(items@.take(items.len() as int) =~= items@);
        let mut npc_rows: Vec<(String, LinkInfo)> = Vec::new();
        let mut i: usize = 0;
        while i < npcs.len()
            invariant
                i <= npcs.len(),
                entry_views(npc_rows@) == npc_entries(npcs@.take(i as int)),
            decreases npcs.len() - i,
        {
            let n = &npcs[i];
            assert(npc_defs(npcs@.take(i + 1)).drop_last() =~= npc_defs(npcs@.take(i as int)));
            assert(npc_defs(npcs@.take(i + 1)).last() == (n.name@, n.id@));
            insert_row(&mut npc_rows, key_of_name(n.name.as_str()), info_of(&n.id));
            insert_row(&mut npc_rows, n.id.clone(), info_of(&n.id));
            i = i + 1;
        }
        assert(npcs@.take(npcs.len() as int) =~= npcs@);
        LookupData { items: item_rows, npcs: npc_rows }
    }

    /// Resolves an item reference: the key lower-cased is looked up exactly; failing that,
    /// the first key that starts with it and a dash is taken.
    pub fn find_item(&self, key: &str) -> (r: Option<&LinkInfo>)
        ensures
            match r {
                Some(info) => find_entry(self@.items, key@) == Some(info@),
                None => find_entry(self@.items, key@) is None,
            },
    {
        find_row(&self.items, key)
    }

    /// Resolves an NPC reference, as `find_item` does for items.
    pub fn find_npc(&self, key: &str) -> (r: Option<&LinkInfo>)
        ensures
            match r {
                Some(info) => find_entry(self@.npcs, key@) == Some(info@),
                None => find_entry(self@.npcs, key@) is None,
            },
    {
        find_row(&self.npcs, key)
    }
}

/// Builds the lookup tables for the loaded items and NPCs.
pub fn init_lookup(items: &[Item], npcs: &[Npc]) -> (r: LookupData)
    ensures
        r@.items == item_entries(items@),
        r@.npcs == npc_entries(npcs@),
{
    LookupData::new(items, npcs)
}

} // verus!
