use cfst::domain::{domain_matches, normalize_domain, Domain, Name, WildcardName};
use cfst::text::{to_lower, CharClass};

#[test]
fn normalizes_config_domains() {
    assert_eq!(normalize_domain("/CDN.Example.COM./"), "cdn.example.com");
}

#[test]
fn suffix_match_is_label_aware() {
    assert!(domain_matches("cdn.example.com", "example.com"));
    assert!(domain_matches("example.com", "example.com"));
    assert!(!domain_matches("badexample.com", "example.com"));
}

#[test]
fn normal_form_trims_in_order() {
    assert_eq!(normalize_domain("  //a.b..//\u{3000}\n"), "a.b");
    assert_eq!(normalize_domain("/ A /"), " a ");
    assert_eq!(normalize_domain("a/."), "a/");
    assert_eq!(normalize_domain(".a"), ".a");
    assert_eq!(normalize_domain("/./"), "");
    assert_eq!(normalize_domain(""), "");
    assert_eq!(normalize_domain("\u{c4}.De"), "\u{c4}.de");
}

#[test]
fn normal_form_agrees_with_the_standard_library() {
    for input in [
        "", "/", "//", ".", "a", "A.B.", " /A.B./ ", "\t/x/\r\n", "/./a/./", "a..", "\u{a0}a\u{2003}",
        "\u{85}/Z/", "\u{200b}a", "B\u{c9}b\u{e9}.FR.", "/ /a/ /",
    ] {
        let want = input.trim().trim_matches('/').trim_end_matches('.').to_ascii_lowercase();
        assert_eq!(normalize_domain(input), want);
    }
}

#[test]
fn normal_form_ignores_case_and_is_stable() {
    assert_eq!(normalize_domain("/EXAMPLE.Com/"), normalize_domain("/example.cOM/"));
    let once = normalize_domain(" /Cdn.Example.com./ ");
    assert_eq!(normalize_domain(&once), once);
}

#[test]
fn white_space_is_that_of_the_standard_library() {
    for c in '\0'..=char::MAX {
        assert_eq!(CharClass::WhiteSpace.has(c), c.is_whitespace());
        assert_eq!(CharClass::Digit.has(c), c.to_digit(10).is_some());
        assert_eq!(to_lower(c), c.to_ascii_lowercase());
    }
}

#[test]
fn matching_agrees_with_a_dotted_suffix() {
    let names = ["", ".", "a", "b", "a.b", "b.a", "c.a.b", "xa.b", ".b", "a.", "\u{e9}.b", "\u{e9}"];
    for q in names {
        for r in names {
            assert_eq!(domain_matches(q, r), q == r || q.ends_with(&format!(".{r}")), "{q} {r}");
        }
    }
}

#[test]
fn matching_is_transitive() {
    assert!(domain_matches("a.b.c.d", "b.c.d"));
    assert!(domain_matches("b.c.d", "c.d"));
    assert!(domain_matches("a.b.c.d", "c.d"));
}

#[test]
fn names_are_in_lower_case_without_a_final_stop() {
    let name = Name::new("CDN.Example.com.");
    assert_eq!(name.as_str(), "cdn.example.com");
    assert!(name == Name::new("cdn.example.com"));
    assert!(name != Name::new("example.com"));
    assert!(name.clone() == name);
    assert_eq!(Name::new(" /A/ ").as_str(), " /a/ ");
    assert_eq!(Name::new("a..").as_str(), "a.");
    assert_eq!(Name::new(".").as_str(), "");
    assert_eq!(Name::new("").as_str(), "");
    assert_eq!(Name::normal(" /A.b../ ").as_str(), "a.b");
}

#[test]
fn wildcard_names_cover_what_is_below_them() {
    let rule = WildcardName::Default(Name::new("example.com"));
    assert!(rule.is_match(&Name::new("example.com")));
    assert!(rule.is_match(&Name::new("a.b.Example.COM.")));
    assert!(!rule.is_match(&Name::new("badexample.com")));
    assert!(!rule.is_match(&Name::new("com")));
    assert_eq!(rule.name().as_str(), "example.com");
}

#[test]
fn domains_have_a_text() {
    let name = Domain::Name(WildcardName::Default(Name::new("A.b")));
    assert_eq!(name.to_string(), "a.b");
    assert_eq!(Domain::DomainSet("ads".to_string()).to_string(), "ads");
    assert_eq!(name.clone(), name);
}
