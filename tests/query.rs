use levtable::{search_key, search_rows, Table, DEFAULT_TAKE};

fn table_of(data: &[&[&str]]) -> Table {
    let rows = data.iter().map(|r| r.iter().map(|c| c.to_string()).collect()).collect();
    Table::new(80, data.first().map_or(1, |r| r.len()), rows).unwrap()
}

#[test]
fn search_key_escapes_markup() {
    assert_eq!(search_key("Vec<T> -> Option<T>"), "<pre>Vec&lt;T&gt; -&gt; Option&lt;T&gt;</pre>");
    assert_eq!(search_key("a & b"), "<pre>a &amp; b</pre>");
    assert_eq!(search_key(""), "<pre></pre>");
    assert_eq!(search_key("plain é"), "<pre>plain é</pre>");
}

#[test]
fn search_matches_escaped_signature() {
    let table = table_of(&[
        &["<b>pop</b>", "<pre>Vec&lt;T&gt; -&gt; Option&lt;T&gt;</pre>"],
        &["<b>take</b>", "<pre>Option&lt;T&gt; -> Option&lt;T&gt;</pre>"],
    ]);
    let rows = search_rows(&table, "Vec<T> -> Option<T>", Some(1));
    assert_eq!(rows.content().len(), 1);
    assert_eq!(rows.content()[0][0], "<b>pop</b>");
}

#[test]
fn search_without_take_returns_default_count() {
    let data: Vec<Vec<String>> = (0..8).map(|i| vec![format!("row{i}")]).collect();
    let table = Table::new(80, 1, data).unwrap();
    let rows = search_rows(&table, "row", None);
    assert_eq!(rows.content().len(), DEFAULT_TAKE);
    assert_eq!(DEFAULT_TAKE, 5);
    let rows = search_rows(&table, "row", Some(2));
    assert_eq!(rows.content().len(), 2);
}
