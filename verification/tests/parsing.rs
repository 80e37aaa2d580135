use analyzer::category::{Category, CategoryCode};
use analyzer::date::Date;
use analyzer::invite::{Invite, InviteId};
use analyzer::pathway::Pathway;
use analyzer::pool_data::PoolSnapshot;
use analyzer::category_analyzer::CategoryAnalyzer;
use analyzer::strutil::{is_valid_int_text, parse_i32};

#[test]
fn parse_i32_values() {
    assert_eq!(parse_i32("0"), 0);
    assert_eq!(parse_i32("1,234"), 1234);
    assert_eq!(parse_i32("-5"), -5);
    assert_eq!(parse_i32("+42"), 42);
    assert_eq!(parse_i32("2,147,483,647"), 2147483647);
    assert_eq!(parse_i32("-2,147,483,648"), -2147483648);
    assert_eq!(parse_i32("0000000000012"), 12);
}

#[test]
fn int_text_validity() {
    assert!(is_valid_int_text("0"));
    assert!(is_valid_int_text("1,234"));
    assert!(is_valid_int_text("-5"));
    assert!(is_valid_int_text("0000000000001"));
    assert!(is_valid_int_text("2147483647"));
    assert!(!is_valid_int_text("2147483648"));
    assert!(is_valid_int_text("-2147483648"));
    assert!(!is_valid_int_text("-2147483649"));
    assert!(!is_valid_int_text(""));
    assert!(!is_valid_int_text("-"));
    assert!(!is_valid_int_text("12a"));
    assert!(!is_valid_int_text("99999999999999999999"));
}

#[test]
fn category_names() {
    assert_eq!(Category::parse("No Program Specified").code, CategoryCode::General);
    assert_eq!(Category::parse("General").code, CategoryCode::General);
    assert_eq!(Category::parse("Provincial Nominee Program").code, CategoryCode::Province);
    assert_eq!(Category::parse("Canadian Experience Class").code, CategoryCode::Inland);
    assert_eq!(Category::parse("Federal Skilled Worker").code, CategoryCode::Oversea);
    assert_eq!(Category::parse("Federal Skilled Trades").code, CategoryCode::Trade);
    assert_eq!(Category::parse("Trade occupations (2023-1)").code, CategoryCode::Trade);
    assert_eq!(Category::parse("STEM occupations (2023-1)").code, CategoryCode::Stem);
    assert_eq!(Category::parse("Healthcare occupations (2023-1)").code, CategoryCode::Health);
    assert_eq!(
        Category::parse("French language proficiency (2024-1)").code,
        CategoryCode::French
    );
    assert_eq!(Category::parse("Transport occupations (2023-2)").code, CategoryCode::Transport);
    assert_eq!(
        Category::parse("Agriculture and agri-food occupations (2023-1)").code,
        CategoryCode::Agriculture
    );
    assert_eq!(Category::parse("Something else entirely").code, CategoryCode::Invalid);
}

#[test]
fn category_years() {
    assert_eq!(Category::parse("STEM occupations (2023-1)").year, Some(2023));
    assert_eq!(Category::parse("French language proficiency (2024-2)").year, Some(2024));
    assert_eq!(Category::parse("General").year, None);
    assert!(Category::parse("General").is_valid());
    assert!(!Category::parse("???").is_valid());
}

#[test]
fn category_labels() {
    assert_eq!(CategoryCode::Stem.as_str(), "STEM");
    assert_eq!(CategoryCode::Inland.as_str(), "Canadian Experience");
    assert_eq!(CategoryCode::Stem.as_color(), "#3498DB");
    assert_eq!(CategoryCode::values().len(), 10);
}

#[test]
fn pathway_flags() {
    let p = Pathway::parse(
        "Federal Skilled Worker, Canadian Experience Class and Provincial Nominee Program",
    );
    assert!(p.is_fsw());
    assert!(p.is_cec());
    assert!(p.is_pnp());
    assert!(!p.is_fst());
    assert!(p.is_valid());

    let none = Pathway::parse("no recognised program here");
    assert!(!none.is_valid());
}

#[test]
fn invite_id() {
    let mut ids: Vec<InviteId> = vec!["1", "91b", "91a", "33", "100"]
        .into_iter()
        .map(InviteId::parse)
        .collect();
    ids.sort();
    let actual: Vec<String> = ids.iter().map(|x| x.as_string()).collect();
    let expect = vec!["1", "33", "91a", "91b", "100"];
    assert_eq!(actual, expect);

    assert_eq!(InviteId::parse("33").as_string(), "33");
    assert_eq!(InviteId::parse("91a").as_string(), "91a");
    assert_eq!(InviteId::parse("91b").as_string(), "91b");
}

#[test]
fn invite_from_feed_row() {
    let inv = Invite::parse(
        "91a",
        "July 12, 2023",
        "STEM occupations (2023-1)",
        "Federal Skilled Worker and Canadian Experience Class",
        "3,800",
        "486",
    )
    .unwrap();
    assert_eq!(inv.date.days, 738713);
    assert_eq!(inv.category.code, CategoryCode::Stem);
    assert_eq!(inv.category.year, Some(2023));
    assert!(inv.pathway.is_fsw());
    assert!(!inv.pathway.is_pnp());
    assert_eq!(inv.size, 3800);
    assert_eq!(inv.score, 486);
    assert!(inv.is_valid());

    assert!(Invite::parse("1", "not a date", "General", "", "10", "400").is_none());
    assert!(Invite::parse("1", "July 12, 2023", "General", "", "ten", "400").is_none());
    assert!(Invite::parse("1", "July 12, 2023", "General", "", "10", "1300").is_none());
}

#[test]
fn snapshot_from_feed_row() {
    let texts: Vec<String> = vec![
        "601", "502", "403", "304", "205", "106", "7", "8", "9", "10", "11", "12", "13", "1,400",
        "15",
    ]
    .into_iter()
    .map(|s| s.to_string())
    .collect();
    let snap = PoolSnapshot::parse("July 12, 2023", &texts).unwrap();
    assert_eq!(snap.date.days, 738713);
    assert_eq!(snap.count(0), 601);
    assert_eq!(snap.count(13), 1400);
    assert_eq!(snap.total(), 601 + 502 + 403 + 304 + 205 + 106 + 7 + 8 + 9 + 10 + 11 + 12 + 13 + 1400 + 15);
    assert!(snap.is_valid());

    assert!(PoolSnapshot::parse("nonsense", &texts).is_none());
}

#[test]
fn bucket_labels() {
    assert_eq!(PoolSnapshot::as_str(0), "0 - 300");
    assert_eq!(PoolSnapshot::as_str(1), "301 - 350");
    assert_eq!(PoolSnapshot::as_str(14), "601 - 1200");
}

#[test]
fn date_timestamps() {
    let d = Date { days: 738713 };
    assert_eq!(d.to_timestamp(), 1689120000000);
    assert_eq!(Date { days: 719163 }.to_timestamp(), 0);
    assert_eq!(d.plus_days(15).days, 738728);
    assert_eq!(d.days_since(Date { days: 738700 }), 13);
}

#[test]
fn date_parsing() {
    assert_eq!(Date::parse("January 1, 1970"), Some(Date { days: 719163 }));
    assert_eq!(Date::parse("July 12, 2023"), Some(Date { days: 738713 }));
    assert_eq!(Date::parse("2023-07-12"), None);
    assert_eq!(Date::parse(""), None);
}

#[test]
fn rounds_grouped_by_year() {
    let mk = |name: &str, n: i64| Invite {
        id: InviteId::parse("1"),
        date: Date { days: n },
        category: Category::parse(name),
        pathway: Pathway::parse("Canadian Experience Class"),
        size: 1,
        score: 400,
    };
    let a = mk("General", 1);
    let b = mk("STEM occupations (2023-1)", 2);
    let c = mk("Healthcare occupations (2023-2)", 3);
    let d = mk("General", 4);
    let e = mk("Transport occupations (2024-1)", 5);
    let invites = vec![a, b, c, d, e];

    let map = CategoryAnalyzer::of_category_years(&invites);
    assert_eq!(map.len(), 3);
    assert_eq!(map[&2023], vec![b, c, d]);
    assert_eq!(map[&2024], vec![e]);
    assert_eq!(map[&0], vec![b, c, d, e]);

    let untagged = vec![mk("General", 1)];
    let map2 = CategoryAnalyzer::of_category_years(&untagged);
    assert_eq!(map2.len(), 1);
    assert!(map2[&0].is_empty());
}
