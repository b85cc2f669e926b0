use std::collections::HashMap;

use wiki_builder::data::{Item, Npc};
use wiki_builder::lookup::{init_lookup, LookupData};
use wiki_builder::markup::{
    id_to_display_name, item_link_basic, item_link_with_id, item_type_link, linkify_references,
    npc_link_basic, npc_link_with_id,
};

fn item(id: &str, name: &str) -> Item {
    Item {
        id: id.to_string(),
        name: name.to_string(),
        description: String::new(),
        item_type: "Resource".to_string(),
        healing: None,
        stats: HashMap::new(),
        requirements: None,
        acquisition: String::new(),
        sell_price: Some(5),
        notes: String::new(),
    }
}

fn npc(id: &str, name: &str) -> Npc {
    Npc {
        id: id.to_string(),
        name: name.to_string(),
        location: String::new(),
        role: String::new(),
        description: String::new(),
        level: None,
        hitpoints: None,
        stats: HashMap::new(),
        drops: Vec::new(),
        notes: String::new(),
    }
}

#[test]
fn display_name_of_dashed_id() {
    assert_eq!(id_to_display_name("iron-ore"), "Iron Ore");
    assert_eq!(id_to_display_name("bronze-bar-14"), "Bronze Bar 14");
    assert_eq!(id_to_display_name("a--b"), "A  B");
    assert_eq!(id_to_display_name(""), "");
    assert_eq!(id_to_display_name("-x-"), " X ");
}

#[test]
fn item_links() {
    assert_eq!(
        item_link_with_id("bronze-bar-14", "14", "Bronze Bar"),
        r#"<a href="/items/bronze-bar-14.html" class="item-link"><img src="/assets/images/items/14.png" alt="Bronze Bar" class="inline-icon" />Bronze Bar</a>"#
    );
    assert_eq!(
        item_link_basic("iron-ore", "Iron Ore"),
        r#"<a href="/items/iron-ore.html" class="item-link"><img src="/assets/images/items/iron-ore.png" alt="Iron Ore" class="inline-icon" />Iron Ore</a>"#
    );
}

#[test]
fn npc_links() {
    assert_eq!(
        npc_link_with_id("goblin-3", "3", "Goblin"),
        r#"<a href="/npcs/goblin-3.html" class="npc-link"><img src="/assets/images/npcs/3.png" alt="Goblin" class="inline-icon" />Goblin</a>"#
    );
    assert_eq!(
        npc_link_basic("goblin", "Gob"),
        r#"<a href="/npcs/goblin.html" class="npc-link"><img src="/assets/images/npcs/goblin.png" alt="Gob" class="inline-icon" />Gob</a>"#
    );
}

#[test]
fn type_link_lowercases_and_dashes() {
    assert_eq!(
        item_type_link("Two Handed Sword"),
        r#"<a href="/items/?type=two-handed-sword" class="type-link">Two Handed Sword</a>"#
    );
}

#[test]
fn full_item_reference_without_lookup() {
    let out = linkify_references(r#"See <item name="iron-ore">the ore</item>."#, None);
    assert_eq!(out, format!("See {}.", item_link_basic("iron-ore", "the ore")));
}

#[test]
fn full_reference_with_extra_attributes() {
    let out = linkify_references("<npc  name=\"goblin\" class=\"x\">Gob</npc>", None);
    assert_eq!(out, npc_link_basic("goblin", "Gob"));
}

#[test]
fn short_references_without_lookup() {
    let out = linkify_references("<item:iron-ore> and <npc:old-man>", None);
    assert_eq!(
        out,
        format!("{} and {}", item_link_basic("iron-ore", "Iron Ore"), npc_link_basic("old-man", "Old Man"))
    );
}

#[test]
fn autolinks_become_icon_links() {
    let out = linkify_references(
        r#"<p><a href="item:iron-ore">item:iron-ore</a> <a href="npc:old-man">npc:old-man</a></p>"#,
        None,
    );
    assert_eq!(
        out,
        format!(
            "<p>{} {}</p>",
            item_link_basic("iron-ore", "Iron Ore"),
            npc_link_basic("old-man", "Old Man")
        )
    );
}

#[test]
fn malformed_markup_is_left_alone() {
    for t in [
        "<item:>",
        "<item:Upper>",
        "<item name=\"\">x</item>",
        "<itemname=\"a\">x</item>",
        "<item name=\"a\">x</npc>",
        "<item name=\"a\">x<b></item>",
        "<abbr href=\"item:x\">y</abbr>",
        "< item:x>",
    ] {
        assert_eq!(linkify_references(t, None), t);
    }
}

#[test]
fn plain_text_is_unchanged() {
    let t = "No markup here > at all & \"quotes\"";
    let lookup = init_lookup(&[item("iron-ore", "Iron Ore")], &[]);
    assert_eq!(linkify_references(t, Some(&lookup)), t);
    assert_eq!(linkify_references(t, None), t);
}

#[test]
fn references_resolve_through_lookup() {
    let lookup = init_lookup(
        &[item("bronze-bar-14", "Bronze Bar"), item("iron-ore", "Iron Ore")],
        &[npc("old-man-2", "Old Man")],
    );
    // by name key, by id, by id prefix
    let out = linkify_references("<item:bronze-bar>", Some(&lookup));
    assert_eq!(out, item_link_with_id("bronze-bar-14", "bronze-bar-14", "Bronze Bar"));
    let out = linkify_references("<item name=\"Iron-Ore\">ore</item>", Some(&lookup));
    assert_eq!(out, item_link_with_id("iron-ore", "iron-ore", "ore"));
    // a name with a space is not a key: the lookup lower-cases but does not add dashes
    let out = linkify_references("<item name=\"Iron Ore\">ore</item>", Some(&lookup));
    assert_eq!(out, item_link_basic("Iron Ore", "ore"));
    let out = linkify_references("<npc:old-man>", Some(&lookup));
    assert_eq!(out, npc_link_with_id("old-man-2", "old-man-2", "Old Man"));
    let out = linkify_references("<npc:nobody>", Some(&lookup));
    assert_eq!(out, npc_link_basic("nobody", "Nobody"));
}

#[test]
fn lookup_finds_exact_then_prefix() {
    let lookup = LookupData::new(
        &[item("bronze-bar-14", "Bronze Bar"), item("bronze", "Bronze")],
        &[npc("guard", "Town Guard")],
    );
    assert_eq!(lookup.find_item("BRONZE").map(|i| i.id.clone()), Some("bronze".to_string()));
    assert_eq!(lookup.find_item("bronze-bar").map(|i| i.wiki_name.clone()), Some("bronze-bar-14".to_string()));
    assert!(lookup.find_item("silver").is_none());
    assert_eq!(lookup.find_npc("town-guard").map(|i| i.id.clone()), Some("guard".to_string()));
    assert!(lookup.find_npc("bronze").is_none());
}

#[test]
fn later_definition_wins_a_shared_key() {
    let lookup = LookupData::new(&[item("a", "Shared"), item("b", "Shared")], &[]);
    assert_eq!(lookup.find_item("shared").map(|i| i.id.clone()), Some("b".to_string()));
    assert_eq!(lookup.find_item("a").map(|i| i.id.clone()), Some("a".to_string()));
}

#[test]
fn every_loaded_id_is_found() {
    let items = [item("x-1", "Alpha Beta"), item("y", "Gamma"), item("z-9", "Alpha Beta")];
    let lookup = LookupData::new(&items, &[]);
    for it in &items {
        assert!(lookup.find_item(&it.id).is_some());
    }
    assert_eq!(lookup.find_item("z-9").map(|i| i.id.clone()), Some("z-9".to_string()));
}

// The markup grammar, checked against the regular expressions that describe it.
fn linkify_by_regex(text: &str) -> String {
    let pats: [(&str, bool, bool); 6] = [
        (r#"<item\s+name="([^"]+)"[^>]*>([^<]*)</item>"#, true, true),
        (r#"<npc\s+name="([^"]+)"[^>]*>([^<]*)</npc>"#, false, true),
        (r#"<item:([a-z0-9-]+)>"#, true, false),
        (r#"<npc:([a-z0-9-]+)>"#, false, false),
        (r#"<a\s+href=\"item:([a-z0-9-]+)\">[^<]*</a>"#, true, false),
        (r#"<a\s+href=\"npc:([a-z0-9-]+)\">[^<]*</a>"#, false, false),
    ];
    let mut result = text.to_string();
    for (pat, is_item, full) in pats {
        let re = regex::Regex::new(pat).unwrap();
        result = re
            .replace_all(&result, |caps: &regex::Captures| {
                let key = &caps[1];
                let shown = if full { caps[2].to_string() } else { id_to_display_name(key) };
                if is_item {
                    item_link_basic(key, &shown)
                } else {
                    npc_link_basic(key, &shown)
                }
            })
            .to_string();
    }
    result
}

#[test]
fn grammar_agrees_with_regular_expressions() {
    let samples = [
        "",
        "<item:a><item:b>",
        "x <item name=\"k\" >t</item> y <npc name=\"n\">\n</npc>",
        "<item\tname=\"k\">a</item><item name=\"k\">b</item>",
        "<item name=\"k\">a</item></item>",
        "<<item:k>>",
        "<item name=\"k>\">a</item>",
        "<item name=\"k\" a=\"x\" >t</item>",
        "<a  href=\"item:abc-1\">whatever</a><a href=\"npc:q\"></a>",
        "<a href=\"item:abc\">x<y</a>",
        "<npc:a-b-c><item:z9>",
        "<item:k<item:j>",
        "é<item name=\"ü\">ö</item>ß",
        "<item name=\"a\">b</item\u{a0}>",
        "<a\u{2003}href=\"item:k\">x</a>",
    ];
    for s in samples {
        assert_eq!(linkify_references(s, None), linkify_by_regex(s), "input {:?}", s);
    }
}
