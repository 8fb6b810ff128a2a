use logcore::encoding::{
    decode_with_encoding, encoding_for_windows_code_page, encoding_from_label, encoding_from_locale_value, KnownEncoding,
    TextEncoding,
};

#[test]
fn config_labels_accept_utf8_and_local() {
    assert_eq!(TextEncoding::from_config("UTF-8"), TextEncoding::Utf8);
    assert_eq!(TextEncoding::from_config("local"), TextEncoding::Local);
    assert_eq!(TextEncoding::from_config("本地"), TextEncoding::Local);
    assert_eq!(TextEncoding::from_config(""), TextEncoding::Utf8);
    assert_eq!(TextEncoding::Local.config_label(), "Local");
    assert_eq!(TextEncoding::Utf8.resolve(&[]).config_label(), "UTF-8");
}

#[test]
fn locale_values_map_common_legacy_encodings() {
    assert_eq!(encoding_from_locale_value("zh_CN.GBK").map(|e| e.encoding()), Some(encoding_rs::GBK));
    assert_eq!(encoding_from_locale_value("ja_JP.SJIS").map(|e| e.encoding()), Some(encoding_rs::SHIFT_JIS));
    assert_eq!(encoding_from_locale_value("en_US.UTF-8").map(|e| e.encoding()), Some(encoding_rs::UTF_8));
}

#[test]
fn decodes_legacy_chinese_bytes_with_selected_encoding() {
    let decoded = decode_with_encoding(KnownEncoding::Gbk.encoding(), &[0xc4, 0xe3, 0xba, 0xc3]);
    assert_eq!(decoded, "你好");
}

#[test]
fn config_value_is_trimmed_and_case_blind() {
    assert_eq!(TextEncoding::from_config("  LoCaL \t"), TextEncoding::Local);
    assert_eq!(TextEncoding::from_config(" 本地 "), TextEncoding::Local);
    assert_eq!(TextEncoding::from_config("locale"), TextEncoding::Utf8);
    assert_eq!(TextEncoding::Utf8.config_label(), "UTF-8");
}

#[test]
fn locale_labels_are_cut_trimmed_and_looked_up() {
    assert_eq!(encoding_from_locale_value("ko_KR.euc_kr@euro").map(|e| e.encoding()), Some(encoding_rs::EUC_KR));
    assert_eq!(encoding_from_locale_value("zh_TW.Big5").map(|e| e.encoding()), Some(encoding_rs::BIG5));
    assert_eq!(encoding_from_locale_value("de_DE.ISO-8859-1").map(|e| e.encoding()), Some(encoding_rs::WINDOWS_1252));
    assert_eq!(encoding_from_locale_value("C").map(|e| e.encoding()), None);
    assert_eq!(encoding_from_locale_value("utf8").map(|e| e.encoding()), Some(encoding_rs::UTF_8));
}

#[test]
fn local_choice_follows_the_first_locale_value_that_names_an_encoding() {
    let values = vec!["C".to_string(), "zh_CN.GBK".to_string()];
    let resolved = TextEncoding::Local.resolve(&values);
    assert_eq!(resolved.config_label(), "Local");
    assert_eq!(resolved.decode(&[0xc4, 0xe3]), "你");
    assert_eq!(TextEncoding::Utf8.resolve(&values).decode(b"ok\xff"), "ok\u{fffd}");
}

#[test]
fn config_labels_read_back_as_their_encoding() {
    for e in [TextEncoding::Utf8, TextEncoding::Local] {
        assert_eq!(TextEncoding::from_config(e.config_label()), e);
    }
}

#[test]
fn windows_code_pages_name_their_encodings() {
    assert_eq!(encoding_for_windows_code_page(936).map(|e| e.encoding()), Some(encoding_rs::GBK));
    assert_eq!(encoding_for_windows_code_page(54936).map(|e| e.encoding()), Some(encoding_rs::GBK));
    assert_eq!(encoding_for_windows_code_page(65001).map(|e| e.encoding()), Some(encoding_rs::UTF_8));
    assert_eq!(encoding_for_windows_code_page(1252).map(|e| e.encoding()), Some(encoding_rs::WINDOWS_1252));
    assert_eq!(encoding_for_windows_code_page(1258).map(|e| e.encoding()), Some(encoding_rs::WINDOWS_1258));
    assert_eq!(encoding_for_windows_code_page(437).map(|e| e.encoding()), None);
    let resolved = TextEncoding::Local.resolve_with_code_page(932);
    assert_eq!(resolved.decode(&[0x82, 0xa0]), "あ");
    assert_eq!(TextEncoding::Local.resolve_with_code_page(1).decode(b"plain"), "plain");
}

#[test]
fn code_pages_resolve_to_named_encodings() {
    assert_eq!(encoding_for_windows_code_page(936).map(|e| e.name()), Some("GBK"));
    assert_eq!(encoding_for_windows_code_page(54936).map(|e| e.name()), Some("GBK"));
    assert_eq!(encoding_for_windows_code_page(950).map(|e| e.name()), Some("Big5"));
    assert_eq!(encoding_for_windows_code_page(932).map(|e| e.name()), Some("Shift_JIS"));
    assert_eq!(encoding_for_windows_code_page(949).map(|e| e.name()), Some("EUC-KR"));
    assert_eq!(encoding_for_windows_code_page(1251).map(|e| e.name()), Some("windows-1251"));
    assert_eq!(TextEncoding::Local.resolve_with_code_page(936).encoding().name(), "GBK");
    assert_eq!(TextEncoding::Utf8.resolve_with_code_page(936).encoding().name(), "UTF-8");
    assert_eq!(TextEncoding::Local.resolve_with_code_page(437).encoding().name(), "UTF-8");
}

#[test]
fn labels_and_locales_name_encodings() {
    assert_eq!(encoding_from_label(b"latin1").map(|e| e.name()), Some("windows-1252"));
    assert_eq!(encoding_from_label(b"no-such-label").map(|e| e.name()), None);
    assert_eq!(encoding_from_locale_value("zh_CN.gb18030").map(|e| e.name()), Some("GBK"));
    let values = vec!["C".to_string(), "POSIX".to_string()];
    assert_eq!(TextEncoding::Local.resolve(&values).encoding().name(), "UTF-8");
}

#[test]
fn decoding_reads_valid_utf8_as_it_stands() {
    let utf8 = KnownEncoding::Utf8.encoding();
    assert_eq!(decode_with_encoding(utf8, "héllo".as_bytes()), "héllo");
    assert_eq!(decode_with_encoding(utf8, b"a\xffb"), "a\u{fffd}b");
    let big5 = KnownEncoding::Big5.encoding();
    assert_eq!(decode_with_encoding(big5, b"plain"), "plain");
}
