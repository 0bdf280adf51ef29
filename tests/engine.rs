use grocery_bot::grocery::GroceryList;
use grocery_bot::rules::RulesFilter;
use grocery_bot::text::{has_visible_char, is_space, split_pieces, split_words};

fn strings(items: &[&str]) -> Vec<String> {
    items.iter().map(|s| s.to_string()).collect()
}

fn groups(entries: &[&[&str]]) -> Vec<Vec<String>> {
    entries.iter().map(|e| strings(e)).collect()
}

fn list_of(lines: &[&str]) -> GroceryList {
    let mut list = GroceryList::new();
    for line in lines {
        list.append_line(line);
    }
    list
}

#[test]
fn whitespace_only_lines_never_produce_entries() {
    let mut list = GroceryList::new();
    list.append_line("   ");
    list.append_line("\n\t");
    assert!(list.entries().is_empty());
    list.append_line("");
    assert!(list.entries().is_empty());
}

#[test]
fn raw_entries_preserve_verbatim_text() {
    let mut list = GroceryList::new();
    list.append_line("  milk  ");
    assert_eq!(list.entries(), &groups(&[&["  milk  "]]));
}

#[test]
fn word_order_tie_break() {
    let filter = RulesFilter::build_filter("milk\napple");
    assert_eq!(filter.len(), 2);
    assert_eq!(filter.look_up_item("apple milk"), Some(1));
    assert_eq!(filter.look_up_item("milk apple"), Some(0));
    assert_eq!(filter.look_up_item("milk"), Some(0));
    assert_eq!(filter.look_up_item("apple"), Some(1));
}

#[test]
fn lower_category_wins_for_one_word() {
    let filter = RulesFilter::build_filter("bread\nmilk bread");
    assert_eq!(filter.look_up_item("bread"), Some(0));
    assert_eq!(filter.look_up_item("fresh milk"), Some(1));
}

#[test]
fn unknown_words_have_no_category() {
    let filter = RulesFilter::build_filter("milk\napple");
    assert_eq!(filter.look_up_item("bread"), None);
    assert_eq!(filter.look_up_item(""), None);
    assert_eq!(filter.look_up_item("Milk"), None);
    assert_eq!(filter.look_up_item("milky"), None);
}

#[test]
fn words_split_on_any_whitespace() {
    let filter = RulesFilter::build_filter("milk\napple");
    assert_eq!(filter.look_up_item("  two\tapple "), Some(1));
    assert_eq!(filter.look_up_item("oat\u{a0}milk"), Some(0));
}

#[test]
fn empty_config_line_matches_nothing() {
    let filter = RulesFilter::build_filter("milk\n\napple\n");
    assert_eq!(filter.len(), 4);
    assert_eq!(filter.look_up_item("apple"), Some(2));
    assert_eq!(filter.look_up_item("a  b"), None);
}

#[test]
fn first_seen_grouping_order() {
    let filter = RulesFilter::build_filter("apple banana");
    let mut list = list_of(&["apple", "bread", "banana"]);
    list.consolidate(&filter);
    assert_eq!(list.entries(), &groups(&[&["apple", "banana"], &["bread"]]));
}

#[test]
fn group_placed_at_first_member() {
    let filter = RulesFilter::build_filter("milk cheese\napple pear");
    let mut list = list_of(&["bread", "pear", "milk", "apple", "eggs", "cheese"]);
    list.consolidate(&filter);
    assert_eq!(
        list.entries(),
        &groups(&[&["bread"], &["pear", "apple"], &["milk", "cheese"], &["eggs"]])
    );
}

#[test]
fn unmatched_items_become_singleton_groups() {
    let filter = RulesFilter::from_categories(Vec::new());
    assert_eq!(filter.len(), 0);
    let mut list = list_of(&["apple", "bread"]);
    list.consolidate(&filter);
    assert_eq!(list.entries(), &groups(&[&["apple"], &["bread"]]));
}

#[test]
fn repeated_consolidation_drops_prior_grouping() {
    let filter = RulesFilter::build_filter("apple banana");
    let mut list = list_of(&["apple", "banana", "bread"]);
    list.consolidate(&filter);
    assert_eq!(list.entries(), &groups(&[&["apple", "banana"], &["bread"]]));
    list.consolidate(&filter);
    assert_eq!(list.entries(), &groups(&[&["bread"]]));
}

#[test]
fn consolidating_only_grouped_entries_gives_empty_list() {
    let filter = RulesFilter::build_filter("apple banana");
    let mut list = list_of(&["apple", "banana"]);
    list.consolidate(&filter);
    assert_eq!(list.entries(), &groups(&[&["apple", "banana"]]));
    list.consolidate(&filter);
    assert!(list.entries().is_empty());
}

#[test]
fn consolidating_empty_list() {
    let filter = RulesFilter::build_filter("apple");
    let mut list = GroceryList::new();
    list.consolidate(&filter);
    assert!(list.entries().is_empty());
}

#[test]
fn items_keep_their_text_when_grouped() {
    let filter = RulesFilter::build_filter("milk");
    let mut list = list_of(&["2 milk", " milk "]);
    list.consolidate(&filter);
    assert_eq!(list.entries(), &groups(&[&["2 milk", " milk "]]));
}

#[test]
fn append_text_splits_lines() {
    let mut list = GroceryList::new();
    list.append_text("eggs\n\n  \nflour\r\n");
    assert_eq!(list.entries(), &groups(&[&["eggs"], &["flour\r"]]));
}

#[test]
fn view_command_replies_with_groups() {
    let filter = RulesFilter::build_filter("apple banana");
    let mut list = GroceryList::new();
    let replies = list.handle_message(&filter, "apple\nbread\nbanana");
    assert!(replies.is_empty());
    let replies = list.handle_message(&filter, "/view");
    assert_eq!(replies, strings(&["* apple, banana", "* bread"]));
    assert_eq!(list.entries(), &groups(&[&["apple", "banana"], &["bread"], &["/view"]]));
}

#[test]
fn view_of_empty_list_has_no_replies() {
    let filter = RulesFilter::build_filter("apple");
    let mut list = GroceryList::new();
    let replies = list.handle_message(&filter, "/view");
    assert!(replies.is_empty());
    assert_eq!(list.entries(), &groups(&[&["/view"]]));
}

#[test]
fn view_command_must_match_exactly() {
    let filter = RulesFilter::build_filter("apple");
    let mut list = GroceryList::new();
    let replies = list.handle_message(&filter, "/views");
    assert!(replies.is_empty());
    let replies = list.handle_message(&filter, "/view\nx");
    assert!(replies.is_empty());
    assert_eq!(list.entries(), &groups(&[&["/views"], &["/view"], &["x"]]));
}

#[test]
fn whitespace_agrees_with_std() {
    for code in 0u32..=0x10FFFF {
        if let Some(c) = char::from_u32(code) {
            assert_eq!(is_space(c), c.is_whitespace(), "{:?}", c);
        }
    }
}

#[test]
fn visible_characters() {
    assert!(!has_visible_char(""));
    assert!(!has_visible_char(" \t\n\r\u{3000}"));
    assert!(has_visible_char("  x "));
}

#[test]
fn split_words_cases() {
    assert_eq!(split_words(""), Vec::<String>::new());
    assert_eq!(split_words("   "), Vec::<String>::new());
    assert_eq!(split_words(" a  bc\td "), strings(&["a", "bc", "d"]));
    assert_eq!(split_words("héllo wörld"), strings(&["héllo", "wörld"]));
}

#[test]
fn split_pieces_cases() {
    assert_eq!(split_pieces("", '\n'), strings(&[""]));
    assert_eq!(split_pieces("a\n\nb\n", '\n'), strings(&["a", "", "b", ""]));
    assert_eq!(split_pieces("ab", '\n'), strings(&["ab"]));
}
