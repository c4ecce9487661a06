use dom6_simple_map_editor::settings::{candidate_name, format_config, parse_config};

#[test]
fn config_text_without_the_key_leaves_the_default_in_place() {
    assert_eq!(parse_config("other = 3\n\n"), None);
}

#[test]
fn a_config_line_names_the_data_folder() {
    let text = format_config("D:/maps stuff");
    assert_eq!(parse_config(&text), Some("D:/maps stuff".to_string()));
}

#[test]
fn taken_names_get_numbers() {
    assert_eq!(candidate_name("world", "png", 0), "world.png");
    assert_eq!(candidate_name("world", "png", 2), "world-2.png");
}
