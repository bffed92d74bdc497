use ls_web::query::{parse_query, query_value};

fn pairs(v: &[(&str, &str)]) -> Vec<(String, String)> {
    v.iter().map(|(a, b)| (a.to_string(), b.to_string())).collect()
}

#[test]
fn query_pairs_in_order_with_decoded_values() {
    assert_eq!(
        parse_query("path=a%2Fb&format=tar.gz"),
        pairs(&[("path", "a/b"), ("format", "tar.gz")])
    );
}

#[test]
fn query_pieces_without_value_or_key() {
    assert_eq!(parse_query(""), pairs(&[("", "")]));
    assert_eq!(parse_query("a"), pairs(&[("a", "")]));
    assert_eq!(parse_query("a=&=b&&c=d=e"), pairs(&[("a", ""), ("", "b"), ("", ""), ("c", "d=e")]));
}

#[test]
fn query_keys_are_not_decoded() {
    assert_eq!(parse_query("a%20b=c%20d"), pairs(&[("a%20b", "c d")]));
}

#[test]
fn query_value_takes_the_last_pair() {
    let p = parse_query("format=zip&path=x&format=7z");
    assert_eq!(query_value(&p, "format"), Some("7z".to_string()));
    assert_eq!(query_value(&p, "path"), Some("x".to_string()));
    assert_eq!(query_value(&p, "missing"), None);
}

#[test]
fn download_link_query_reads_back() {
    let path = "my dir/ü&x=1";
    let format = "tar.gz";
    let q = format!(
        "path={}&format={}",
        ls_web::urlcodec::encode_component(path),
        ls_web::urlcodec::encode_component(format)
    );
    let p = parse_query(&q);
    assert_eq!(query_value(&p, "path"), Some(path.to_string()));
    assert_eq!(query_value(&p, "format"), Some(format.to_string()));
}
