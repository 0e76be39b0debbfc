use tile_overlap::manifest::{
    get_download_links_txt_file_url, manifest_lines, USGSProductResult, BASE_URL_STAGED_PRODUCTS,
    DOWNLOAD_LINKS_FILE, PREFIX_PARAMETER,
};

#[test]
fn named_locations() {
    assert_eq!(BASE_URL_STAGED_PRODUCTS, "https://prd-tnm.s3.amazonaws.com/");
    assert_eq!(PREFIX_PARAMETER, "prefix=");
    assert_eq!(DOWNLOAD_LINKS_FILE, "/0_file_download_links.txt");
}

#[test]
fn tile_list_of_a_product_link() {
    let link = "https://prd-tnm.s3.amazonaws.com/index.html?prefix=StagedProducts/Elevation/1m/Projects/CO_Example_2020"
        .to_string();
    assert_eq!(
        get_download_links_txt_file_url(&link),
        "https://prd-tnm.s3.amazonaws.com/StagedProducts/Elevation/1m/Projects/CO_Example_2020/0_file_download_links.txt"
    );
}

#[test]
fn tile_list_of_a_link_without_the_parameter() {
    let link = "https://example.org/index.html?key=value".to_string();
    assert_eq!(
        get_download_links_txt_file_url(&link),
        "https://prd-tnm.s3.amazonaws.com//0_file_download_links.txt"
    );
    assert_eq!(
        get_download_links_txt_file_url(&String::new()),
        "https://prd-tnm.s3.amazonaws.com//0_file_download_links.txt"
    );
}

#[test]
fn the_value_ends_where_the_parameter_comes_again() {
    let link = "list?prefix=one&prefix=two&prefix=three".to_string();
    assert_eq!(
        get_download_links_txt_file_url(&link),
        "https://prd-tnm.s3.amazonaws.com/one&/0_file_download_links.txt"
    );
}

#[test]
fn the_value_may_be_empty_or_hold_other_parameters() {
    assert_eq!(
        get_download_links_txt_file_url(&"list?prefix=".to_string()),
        "https://prd-tnm.s3.amazonaws.com//0_file_download_links.txt"
    );
    assert_eq!(
        get_download_links_txt_file_url(&"list?prefix=a/b&max=3".to_string()),
        "https://prd-tnm.s3.amazonaws.com/a/b&max=3/0_file_download_links.txt"
    );
    assert_eq!(
        get_download_links_txt_file_url(&"list?PREFIX=a".to_string()),
        "https://prd-tnm.s3.amazonaws.com//0_file_download_links.txt"
    );
}

#[test]
fn the_value_may_hold_characters_outside_ascii() {
    assert_eq!(
        get_download_links_txt_file_url(&"caf\u{e9}?prefix=\u{fc}ber/\u{1f5fa}".to_string()),
        "https://prd-tnm.s3.amazonaws.com/\u{fc}ber/\u{1f5fa}/0_file_download_links.txt"
    );
}

#[test]
fn one_reference_per_line() {
    assert_eq!(manifest_lines("a.tif\nb.tif\nc.tif"), vec!["a.tif", "b.tif", "c.tif"]);
    assert_eq!(manifest_lines("a.tif\nb.tif\n"), vec!["a.tif", "b.tif"]);
}

#[test]
fn trailing_blank_lines_give_no_references() {
    let lines = manifest_lines("a.tif\nb.tif\n\n\n");
    assert_eq!(lines, vec!["a.tif", "b.tif"]);
    assert!(lines.iter().all(|line| !line.is_empty()));
}

#[test]
fn blank_lines_anywhere_give_no_references() {
    assert_eq!(manifest_lines("\n\na\n\n\nb\n\nc"), vec!["a", "b", "c"]);
    assert!(manifest_lines("").is_empty());
    assert!(manifest_lines("\n").is_empty());
    assert!(manifest_lines("\n\n\n").is_empty());
}

#[test]
fn lines_are_split_at_line_feeds_only() {
    assert_eq!(manifest_lines("a b\tc\r\nd"), vec!["a b\tc\r", "d"]);
    assert_eq!(manifest_lines(" \n "), vec![" ", " "]);
    assert_eq!(manifest_lines("\u{e9}t\u{e9}\n\u{1f5fa}"), vec!["\u{e9}t\u{e9}", "\u{1f5fa}"]);
}

#[test]
fn a_product_record_keeps_its_fields() {
    let product = USGSProductResult {
        product_link: "list?prefix=p".to_string(),
        metadata_link: "meta".to_string(),
        date: "2020-01-01".to_string(),
        name: "P".to_string(),
    };
    assert_eq!(
        get_download_links_txt_file_url(&product.product_link),
        "https://prd-tnm.s3.amazonaws.com/p/0_file_download_links.txt"
    );
    assert_eq!(product.name, "P");
    assert_eq!(product.date, "2020-01-01");
    assert_eq!(product.metadata_link, "meta");
}
