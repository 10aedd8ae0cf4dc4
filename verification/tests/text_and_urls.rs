use mdict_core::app_config::ConfigKey;
use mdict_core::error::ZdbError;
use mdict_core::mdx_profile::MdxProfile;
use mdict_core::mdx_url_parser::MdxAction;
use mdict_core::mdx_url_parser::parse_mdx_url;
use mdict_core::text::decoded_stem;
use mdict_core::text::str_eq;
use mdict_core::text::str_lt;

#[test]
fn leaf_title_is_the_decoded_file_stem() {
    let p = MdxProfile::new(String::from("file:///dicts/My%20Dict.mdx"), 4, false);
    assert_eq!(p.title, "My Dict");
    assert_eq!(p.url, "file:///dicts/My%20Dict.mdx");
    assert!(!p.is_group());
    let q = MdxProfile::new(String::from("file:///dicts/plain.mdx"), 5, false);
    assert_eq!(q.title, "plain");
}

#[test]
fn decoded_stem_handles_edges() {
    assert_eq!(decoded_stem("file:///a/b/c.mdx"), "c");
    assert_eq!(decoded_stem("noslashes"), "noslashes");
    assert_eq!(decoded_stem("dir/no_extension"), "no_extension");
    assert_eq!(decoded_stem("a/two.dots.mdx"), "two.dots");
    assert_eq!(decoded_stem("x/%41%42.mdx"), "AB");
    assert_eq!(decoded_stem("x/50%25.mdx"), "50%");
    assert_eq!(decoded_stem(""), "");
}

#[test]
fn string_order_helpers_follow_character_order() {
    assert!(str_lt("apple", "banana"));
    assert!(!str_lt("banana", "apple"));
    assert!(str_lt("app", "apple"));
    assert!(!str_lt("apple", "apple"));
    assert!(str_eq("same", "same"));
    assert!(!str_eq("same", "sama"));
}

#[test]
fn parse_mdx_url_extracts_the_action() {
    let base = "mdx://mdict.cn/service/";
    assert_eq!(parse_mdx_url("mdx://mdict.cn/service/entryx?profile_id=1", base).unwrap(), MdxAction::EntryX);
    assert_eq!(parse_mdx_url("mdx://mdict.cn/service/sound", base).unwrap(), MdxAction::Sound);
    assert_eq!(parse_mdx_url("mdx://mdict.cn/service/iframe?x=1", base).unwrap(), MdxAction::IFrame);
    match parse_mdx_url("mdx://mdict.cn/service/bogus?x=1", base) {
        Err(e) => assert_eq!(e, ZdbError::InvalidParameter),
        Ok(_) => panic!("unknown actions must be refused"),
    }
    assert!(parse_mdx_url("http://elsewhere/entry", base).is_err());
}

#[test]
fn parse_mdx_url_normalizes_the_localhost_base() {
    let base = "http://http.localhost/service/";
    let url = "http://localhost/service/mdd?file=x";
    assert_eq!(parse_mdx_url(url, base).unwrap(), MdxAction::Mdd);
}

#[test]
fn config_keys_round_trip_through_their_strings() {
    let keys = [
        ConfigKey::AppOwner,
        ConfigKey::ExtraLibSearchPath,
        ConfigKey::LastMainProfileId,
        ConfigKey::AppearanceMode,
        ConfigKey::AutoResizeImage,
    ];
    for k in keys.iter() {
        assert_eq!(ConfigKey::from_str(k.as_str()), Some(*k));
    }
    assert_eq!(ConfigKey::from_str("no_such_key"), None);
    assert_eq!(ConfigKey::LastMainProfileId.as_str(), "last_main_profile_id");
}

#[test]
fn error_descriptions_name_each_variant() {
    assert_eq!(ZdbError::NotFound.as_str(), "not found");
    assert_eq!(ZdbError::InvalidParameter.as_str(), "invalid parameter");
    assert_eq!(ZdbError::InvalidDataFormat.as_str(), "invalid data format");
}
