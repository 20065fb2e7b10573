use crypto_screener::selection::{cell_style, toggle_cell_selection, CellSelection};

#[test]
fn toggle_highlights_then_clears() {
    let mut cells = CellSelection::new();
    toggle_cell_selection(&mut cells, "BTC".to_string(), "price".to_string());
    assert!(cells.contains("BTC", "price"));
    assert_eq!(cells.len(), 1);
    toggle_cell_selection(&mut cells, "BTC".to_string(), "price".to_string());
    assert!(!cells.contains("BTC", "price"));
    assert_eq!(cells.len(), 0);
}

#[test]
fn toggle_twice_restores_other_cells() {
    let mut cells = CellSelection::new();
    toggle_cell_selection(&mut cells, "BTC".to_string(), "price_usd".to_string());
    toggle_cell_selection(&mut cells, "ETH".to_string(), "name".to_string());
    toggle_cell_selection(&mut cells, "BTC".to_string(), "name".to_string());
    toggle_cell_selection(&mut cells, "BTC".to_string(), "name".to_string());
    assert_eq!(cells.len(), 2);
    assert!(cells.contains("BTC", "price_usd"));
    assert!(cells.contains("ETH", "name"));
    assert!(!cells.contains("BTC", "name"));
    toggle_cell_selection(&mut cells, "BTC".to_string(), "price_usd".to_string());
    toggle_cell_selection(&mut cells, "BTC".to_string(), "price_usd".to_string());
    assert_eq!(cells.len(), 2);
    assert!(cells.contains("BTC", "price_usd"));
}

#[test]
fn style_follows_the_selection() {
    let mut cells = CellSelection::new();
    assert_eq!(cell_style("BTC", "symbol", &cells), "");
    toggle_cell_selection(&mut cells, "BTC".to_string(), "symbol".to_string());
    assert_eq!(cell_style("BTC", "symbol", &cells), "background-color: steelblue;");
    assert_eq!(cell_style("BTC", "name", &cells), "");
    assert_eq!(cell_style("ETH", "symbol", &cells), "");
}
