use crypto_screener::decimal::Decimal;
use crypto_screener::model::{Command, Model, Msg, SortOrder};
use crypto_screener::normalize::RawValue;
use crypto_screener::record::{CryptoData, RawRecord};

fn ticker(symbol: &str, price: &str, volume: &str) -> CryptoData {
    CryptoData::from_raw(RawRecord {
        symbol: RawValue::Text(symbol.to_string()),
        name: RawValue::Text(symbol.to_lowercase()),
        price_usd: RawValue::Text(price.to_string()),
        percent_change_1h: RawValue::Null,
        percent_change_24h: RawValue::Null,
        percent_change_7d: RawValue::Null,
        volume24: RawValue::Float(Decimal::parse(volume).unwrap()),
    })
}

fn market() -> Vec<CryptoData> {
    vec![ticker("BTC", "45000", "300"), ticker("ETH", "3000", "900"), ticker("ADA", "0.45", "100")]
}

fn symbols(model: &Model) -> Vec<String> {
    model.data.iter().map(|r| r.row_id()).collect()
}

fn failure() -> reqwest::Error {
    match reqwest::Client::new().get("not a url").build() {
        Err(e) => e,
        Ok(_) => panic!("a request without a url should not build"),
    }
}

#[test]
fn new_table_is_empty_and_ordered_by_volume() {
    let model = Model::new();
    assert!(model.data.is_empty());
    assert_eq!(model.error_message, None);
    assert!(!model.show_about);
    assert_eq!(model.sort_by, Some("volume24".to_string()));
    assert!(!model.sort_asc);
    assert_eq!(model.selected_cells.len(), 0);
}

#[test]
fn fetch_is_handed_to_the_host() {
    let mut model = Model::new();
    model.data = market();
    assert_eq!(model.update(Msg::FetchData), Command::Fetch);
    assert_eq!(symbols(&model), vec!["BTC", "ETH", "ADA"]);
    assert_eq!(model.sort_by, Some("volume24".to_string()));
    assert!(!model.sort_asc);
}

#[test]
fn data_that_came_is_put_in_order() {
    let mut model = Model::new();
    model.error_message = Some("old".to_string());
    assert_eq!(model.update(Msg::SetData(Ok(market()))), Command::Render);
    assert_eq!(symbols(&model), vec!["ETH", "BTC", "ADA"]);
    assert_eq!(model.error_message, None);
    assert_eq!(model.sort_by, Some("volume24".to_string()));
    assert!(!model.sort_asc);
}

#[test]
fn failed_fetch_leaves_the_table_as_it_is() {
    let mut model = Model::new();
    model.update(Msg::SetData(Ok(market())));
    assert_eq!(model.update(Msg::SetData(Err(failure()))), Command::Render);
    assert_eq!(symbols(&model), vec!["ETH", "BTC", "ADA"]);
    let message = model.error_message.clone().unwrap();
    assert!(message.starts_with("Failed to fetch data: "));
    assert_eq!(message, format!("Failed to fetch data: {:?}", failure()));
    assert_eq!(model.sort_by, Some("volume24".to_string()));
    assert!(!model.sort_asc);
}

#[test]
fn failure_message_names_what_failed() {
    let mut model = Model::new();
    model.set_failure("timeout");
    assert_eq!(model.error_message, Some("Failed to fetch data: timeout".to_string()));
    model.set_data(market());
    assert_eq!(model.error_message, None);
}

#[test]
fn choosing_a_column_orders_or_turns_round() {
    let mut model = Model::new();
    model.update(Msg::SetData(Ok(market())));
    assert_eq!(model.update(Msg::SortBy("volume24".to_string())), Command::Render);
    assert!(model.sort_asc);
    assert_eq!(symbols(&model), vec!["ADA", "BTC", "ETH"]);
    model.update(Msg::SortBy("symbol".to_string()));
    assert_eq!(model.sort_by, Some("symbol".to_string()));
    assert!(model.sort_asc);
    assert_eq!(symbols(&model), vec!["ADA", "BTC", "ETH"]);
    model.update(Msg::SortBy("symbol".to_string()));
    assert!(!model.sort_asc);
    assert_eq!(symbols(&model), vec!["ETH", "BTC", "ADA"]);
    model.update(Msg::SortBy("price_usd".to_string()));
    assert_eq!(model.sort_by, Some("price_usd".to_string()));
    assert!(!model.sort_asc);
    assert_eq!(symbols(&model), vec!["BTC", "ETH", "ADA"]);
    model.update(Msg::SortBy("price_usd".to_string()));
    assert!(model.sort_asc);
    assert_eq!(symbols(&model), vec!["ADA", "ETH", "BTC"]);
    model.update(Msg::SortBy("name".to_string()));
    assert!(model.sort_asc);
    assert_eq!(symbols(&model), vec!["ADA", "BTC", "ETH"]);
}

#[test]
fn choosing_an_unknown_column_keeps_the_order() {
    let mut model = Model::new();
    model.update(Msg::SetData(Ok(market())));
    model.handle_sort("foo".to_string());
    assert_eq!(model.sort_by, Some("foo".to_string()));
    assert!(!model.sort_asc);
    assert_eq!(symbols(&model), vec!["ETH", "BTC", "ADA"]);
    model.handle_sort("foo".to_string());
    assert!(model.sort_asc);
    assert_eq!(symbols(&model), vec!["ETH", "BTC", "ADA"]);
}

#[test]
fn header_shows_the_order() {
    let mut model = Model::new();
    assert_eq!(model.sort_order("volume24"), SortOrder::Descending);
    assert_eq!(model.sort_order("symbol"), SortOrder::Unsorted);
    model.handle_sort("symbol".to_string());
    assert_eq!(model.sort_order("symbol"), SortOrder::Ascending);
    assert_eq!(model.sort_order("volume24"), SortOrder::Unsorted);
    model.sort_by = None;
    assert_eq!(model.sort_order("symbol"), SortOrder::Unsorted);
    assert_eq!(SortOrder::Unsorted.class(), "");
    assert_eq!(SortOrder::Ascending.class(), "ascending");
    assert_eq!(SortOrder::Descending.class(), "descending");
}

#[test]
fn cells_toggle_through_the_table() {
    let mut model = Model::new();
    let toggle = Msg::ToggleCellSelection("BTC".to_string(), "price_usd".to_string());
    assert_eq!(model.update(toggle), Command::Render);
    assert!(model.selected_cells.contains("BTC", "price_usd"));
    assert_eq!(model.cell_style("BTC", "price_usd"), "background-color: steelblue;");
    assert_eq!(model.cell_style("BTC", "name"), "");
    model.toggle_cell_selection("BTC".to_string(), "price_usd".to_string());
    assert!(!model.selected_cells.contains("BTC", "price_usd"));
    assert_eq!(model.cell_style("BTC", "price_usd"), "");
    assert_eq!(model.selected_cells.len(), 0);
}

#[test]
fn about_box_toggles() {
    let mut model = Model::new();
    assert_eq!(model.update(Msg::ToggleAbout), Command::Render);
    assert!(model.show_about);
    assert_eq!(model.update(Msg::ToggleAbout), Command::Render);
    assert!(!model.show_about);
}
