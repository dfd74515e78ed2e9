use bitfold::svg::escape;

#[test]
fn escape_replaces_markup_characters() {
    assert_eq!(escape("a<b & \"c\">d"), "a&lt;b &amp; &quot;c&quot;&gt;d");
    assert_eq!(escape(""), "");
    assert_eq!(escape("rfc1951"), "rfc1951");
    assert_eq!(escape("&amp;"), "&amp;amp;");
}

#[test]
fn escape_keeps_other_characters() {
    assert_eq!(escape("π — ü 'x'"), "π — ü 'x'");
}
