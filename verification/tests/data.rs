use std::collections::HashMap;

use wiki_builder::data::{
    derive_title_from_path, enrich_drop, load_npc_notes, markdown_to_html, page_slug, DataError,
    Item, Npc, Page, PathPart,
};
use wiki_builder::markup::item_link_basic;
use wiki_builder::order::{sort_items, sort_npcs, sort_pages, str_lt};

fn item(id: &str, name: &str, price: Option<u64>) -> Item {
    Item {
        id: id.to_string(),
        name: name.to_string(),
        description: "d".to_string(),
        item_type: "Ore".to_string(),
        healing: None,
        stats: HashMap::new(),
        requirements: None,
        acquisition: String::new(),
        sell_price: price,
        notes: String::new(),
    }
}

fn npc(id: &str, name: &str) -> Npc {
    Npc {
        id: id.to_string(),
        name: name.to_string(),
        location: String::new(),
        role: String::new(),
        description: String::new(),
        level: Some(1),
        hitpoints: None,
        stats: HashMap::new(),
        drops: vec!["Iron Ore".to_string()],
        notes: String::new(),
    }
}

fn normal(s: &str) -> PathPart {
    PathPart::Normal(s.to_string())
}

#[test]
fn drop_matching_an_item_ignores_case() {
    let items = [item("copper-ore", "Copper Ore", None), item("iron-ore", "Iron Ore", Some(7))];
    let d = enrich_drop("iron ORE", &items);
    assert_eq!(d.item_id, "iron-ore");
    assert_eq!(d.item_name, "Iron Ore");
    assert_eq!(d.item_type, "Ore");
    assert_eq!(d.sell_price, Some(7));
    assert_eq!(d.link_html, item_link_basic("iron-ore", "Iron Ore"));
    assert_eq!(
        d.link_html,
        r#"<a href="/items/iron-ore.html" class="item-link"><img src="/assets/images/items/iron-ore.png" alt="Iron Ore" class="inline-icon" />Iron Ore</a>"#
    );
}

#[test]
fn drop_takes_the_first_matching_item() {
    let items = [item("a", "Bones", Some(1)), item("b", "bones", Some(2))];
    let d = enrich_drop("BONES", &items);
    assert_eq!(d.item_id, "a");
    assert_eq!(d.sell_price, Some(1));
}

#[test]
fn drop_without_item_stays_plain() {
    let d = enrich_drop("Mystery Box", &[item("a", "Bones", Some(1))]);
    assert_eq!(d.item_id, "");
    assert_eq!(d.item_name, "Mystery Box");
    assert_eq!(d.item_type, "");
    assert_eq!(d.sell_price, None);
    assert_eq!(d.link_html, "Mystery Box");
}

#[test]
fn notes_are_empty() {
    assert_eq!(load_npc_notes("goblin").unwrap(), "");
}

#[test]
fn markdown_renders_html() {
    assert_eq!(markdown_to_html("# Hi"), "<h1>Hi</h1>\n");
    assert_eq!(markdown_to_html("~~x~~"), "<p><del>x</del></p>\n");
    let table = markdown_to_html("|a|b|\n|-|-|\n|1|2|\n");
    assert!(table.contains("<table>"));
}

#[test]
fn slug_from_path_below_base() {
    let base = [PathPart::RootDir, normal("site"), normal("html")];
    let full = [PathPart::RootDir, normal("site"), normal("html"), normal("guides"), normal("mining.md")];
    assert_eq!(page_slug(&base, &full).unwrap(), "guides/mining");
}

#[test]
fn slug_keeps_inner_dots_and_turns_backslashes() {
    let base = [normal("b")];
    let full = [normal("b"), normal("v1.2"), normal("a\\b.tar.md")];
    assert_eq!(page_slug(&base, &full).unwrap(), "v1/a/b.tar");
}

#[test]
fn slug_of_dot_file() {
    let base = [normal("b")];
    let full = [normal("b"), normal("x"), normal(".md")];
    assert_eq!(page_slug(&base, &full).unwrap(), "x/");
    let full = [normal("b"), normal(".md"), normal("y.md")];
    assert_eq!(page_slug(&base, &full).unwrap(), "y");
}

#[test]
fn slug_outside_base_is_an_error() {
    let base = [normal("b")];
    let full = [normal("c"), normal("x.md")];
    assert!(matches!(page_slug(&base, &full), Err(DataError::NotUnderBase)));
    let full = [normal("b")];
    assert_eq!(page_slug(&base, &full).unwrap(), "");
    assert!(matches!(page_slug(&[normal("a"), normal("b")], &[normal("a")]), Err(DataError::NotUnderBase)));
}

#[test]
fn titles_from_file_stems() {
    assert_eq!(derive_title_from_path(Some("getting_started-guide")), "Getting Started Guide");
    assert_eq!(derive_title_from_path(Some("  many   spaces__")), "Many Spaces");
    assert_eq!(derive_title_from_path(None), "Page");
    assert_eq!(derive_title_from_path(Some("")), "");
}

#[test]
fn string_order_is_by_characters() {
    assert!(str_lt("Apple", "Banana"));
    assert!(str_lt("Z", "a"));
    assert!(str_lt("ab", "abc"));
    assert!(!str_lt("abc", "abc"));
    assert!(!str_lt("b", "abc"));
}

#[test]
fn items_sort_by_name_stably() {
    let items = vec![
        item("3", "Iron", None),
        item("1", "Copper", None),
        item("2", "Iron", None),
        item("0", "Adamant", None),
    ];
    let ids: Vec<String> = sort_items(items).into_iter().map(|i| i.id).collect();
    assert_eq!(ids, ["0", "1", "3", "2"]);
}

#[test]
fn npcs_and_pages_sort() {
    let ids: Vec<String> = sort_npcs(vec![npc("b", "Zed"), npc("a", "Abe")]).into_iter().map(|n| n.id).collect();
    assert_eq!(ids, ["a", "b"]);
    let pages = vec![
        Page { slug: "x".into(), title: "Mining".into(), body_html: String::new() },
        Page { slug: "y".into(), title: "Fishing".into(), body_html: String::new() },
    ];
    let slugs: Vec<String> = sort_pages(pages).into_iter().map(|p| p.slug).collect();
    assert_eq!(slugs, ["y", "x"]);
}
