use rust_simulator::columns::{run_summary_header, session_summary_header, sorted_product_names};

fn names(list: &[&str]) -> Vec<String> {
    list.iter().map(|s| s.to_string()).collect()
}

#[test]
fn product_names_sort_by_bytes() {
    let sorted = sorted_product_names(&names(&["TOMATOES", "EMERALDS", "Apples", "EMERALD"]));
    assert_eq!(sorted, names(&["Apples", "EMERALD", "EMERALDS", "TOMATOES"]));
}

#[test]
fn product_names_keep_duplicates() {
    let sorted = sorted_product_names(&names(&["b", "a", "b"]));
    assert_eq!(sorted, names(&["a", "b", "b"]));
}

#[test]
fn session_header_lists_each_measure_per_product() {
    let cols = session_summary_header(&names(&["TOMATOES", "EMERALDS"]));
    assert_eq!(
        cols,
        names(&[
            "session_id",
            "total_pnl",
            "EMERALDS_pnl",
            "TOMATOES_pnl",
            "EMERALDS_position",
            "TOMATOES_position",
            "EMERALDS_cash",
            "TOMATOES_cash",
            "total_slope_per_step",
            "total_r2",
            "EMERALDS_slope_per_step",
            "TOMATOES_slope_per_step",
            "EMERALDS_r2",
            "TOMATOES_r2",
        ])
    );
}

#[test]
fn run_header_lists_day_and_pnl_per_product() {
    let cols = run_summary_header(&names(&["TOMATOES", "EMERALDS"]));
    assert_eq!(
        cols,
        names(&[
            "session_id",
            "day",
            "total_pnl",
            "EMERALDS_pnl",
            "TOMATOES_pnl",
            "total_slope_per_step",
            "total_r2",
            "EMERALDS_slope_per_step",
            "TOMATOES_slope_per_step",
            "EMERALDS_r2",
            "TOMATOES_r2",
        ])
    );
}

#[test]
fn headers_without_products_keep_fixed_columns() {
    let cols = run_summary_header(&Vec::new());
    assert_eq!(
        cols,
        names(&["session_id", "day", "total_pnl", "total_slope_per_step", "total_r2"])
    );
}
