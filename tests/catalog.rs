use ict_query::catalog::{parse_catalog, parse_product_line, resolve_product, trim_text, CatalogError, IctProducts};
use ict_query::config::{Config, ConfigError, ServerSection};

fn product(name: &str, dmc: &str, boards: u8) -> IctProducts {
    IctProducts { name: name.to_string(), dmc: dmc.to_string(), boards_on_panel: boards }
}

#[test]
fn first_matching_product_wins() {
    let products = vec![product("A", "XY", 2), product("B", "X", 4), product("C", "XYZ", 6)];
    assert_eq!(resolve_product(&products, "ABCDEF0001234XYZ9"), ("A".to_string(), 2));
    assert_eq!(resolve_product(&products, "ABCDEF0001234XQQ"), ("B".to_string(), 4));
}

#[test]
fn unknown_product_is_single_board() {
    let products = vec![product("A", "XY", 2)];
    assert_eq!(resolve_product(&products, "ABCDEF0001234QQQ"), ("Unknown".to_string(), 1));
    assert_eq!(resolve_product(&Vec::new(), "ABCDEF0001234QQQ"), ("Unknown".to_string(), 1));
}

#[test]
fn product_line_fields_are_trimmed() {
    let p = parse_product_line("  Main board | XY12 |  4 ").unwrap().unwrap();
    assert_eq!(p.name, "Main board");
    assert_eq!(p.dmc, "XY12");
    assert_eq!(p.boards_on_panel, 4);
}

#[test]
fn comment_and_empty_lines_hold_no_product() {
    assert!(parse_product_line("").unwrap().is_none());
    assert!(parse_product_line("! A | B | 2").unwrap().is_none());
}

#[test]
fn lines_without_three_fields_hold_no_product() {
    assert!(parse_product_line("A | B").unwrap().is_none());
    assert!(parse_product_line("A | B | 2 | 3").unwrap().is_none());
    assert!(parse_product_line("just text").unwrap().is_none());
}

#[test]
fn malformed_panel_size_is_an_error() {
    assert!(matches!(parse_product_line("A | B | two"), Err(CatalogError::MalformedPanelSize)));
    assert!(matches!(parse_product_line("A | B | 300"), Err(CatalogError::MalformedPanelSize)));
    assert!(matches!(parse_product_line("A | B | "), Err(CatalogError::MalformedPanelSize)));
}

fn full_section() -> ServerSection {
    ServerSection {
        server: Some("db.local".to_string()),
        password: Some("SECRET-REDACTED".to_string()),
        username: Some("reader".to_string()),
        database: Some("ICT".to_string()),
    }
}

#[test]
fn config_from_complete_sections() {
    let c = Config::from_sections(Some(full_section()), None).ok().unwrap();
    assert_eq!(c.server, "db.local");
    assert_eq!(c.username, "reader");
    assert_eq!(c.database, "ICT");
    assert_eq!(c.log_viewer, ".\\ict_lr.exe");
    let c = Config::from_sections(Some(full_section()), Some("viewer.exe".to_string())).ok().unwrap();
    assert_eq!(c.log_viewer, "viewer.exe");
}

#[test]
fn config_without_server_section() {
    assert!(matches!(Config::from_sections(None, None), Err(ConfigError::MissingSection)));
}

#[test]
fn config_with_missing_or_empty_key() {
    let mut s = full_section();
    s.database = None;
    assert!(matches!(Config::from_sections(Some(s), None), Err(ConfigError::MissingFields)));
    let mut s = full_section();
    s.password = Some(String::new());
    assert!(matches!(Config::from_sections(Some(s), None), Err(ConfigError::MissingFields)));
}

#[test]
fn panel_size_zero_is_an_error() {
    assert!(matches!(parse_product_line("A | B | 0"), Err(CatalogError::MalformedPanelSize)));
}

#[test]
fn panel_size_with_plus_sign() {
    let p = parse_product_line("A | B | +5").unwrap().unwrap();
    assert_eq!(p.boards_on_panel, 5);
    assert!(matches!(parse_product_line("A | B | +"), Err(CatalogError::MalformedPanelSize)));
}

#[test]
fn unicode_white_space_is_trimmed() {
    let p = parse_product_line("\u{a0}\tName\u{3000} |\u{2003}C1 \r|2").unwrap().unwrap();
    assert_eq!(p.name, "Name");
    assert_eq!(p.dmc, "C1");
    assert_eq!(p.boards_on_panel, 2);
    assert_eq!(trim_text("  \t "), "");
    assert_eq!(trim_text(" a b "), "a b");
}

#[test]
fn catalog_reads_products_in_order() {
    let text = "! products\r\nA | X1 | 2\r\n\nB|X2|4\nnot a product\nC | X3 | 1";
    let v = parse_catalog(text).ok().unwrap();
    assert_eq!(v.len(), 3);
    assert_eq!((v[0].name.as_str(), v[0].dmc.as_str(), v[0].boards_on_panel), ("A", "X1", 2));
    assert_eq!((v[1].name.as_str(), v[1].dmc.as_str(), v[1].boards_on_panel), ("B", "X2", 4));
    assert_eq!((v[2].name.as_str(), v[2].dmc.as_str(), v[2].boards_on_panel), ("C", "X3", 1));
}

#[test]
fn catalog_with_final_newline_and_empty_text() {
    assert_eq!(parse_catalog("A|X|3\n").ok().unwrap().len(), 1);
    assert_eq!(parse_catalog("").ok().unwrap().len(), 0);
}

#[test]
fn catalog_fails_on_malformed_panel_size() {
    assert!(matches!(parse_catalog("A|X|3\nB|Y|many\nC|Z|1"), Err(CatalogError::MalformedPanelSize)));
}
