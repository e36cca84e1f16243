use cfst::config::parser::{
    duration_fits, parse_cfst_domain, parse_cfst_mode, parse_duration, parse_option, parse_speed,
    speed_fits, CfstDomainRule, CfstMode, CfstOption, CfstParseError, ErrorKind,
};
use cfst::domain::Domain;
use cfst::time::Duration;
use nom::branch::alt;
use nom::bytes::complete::tag_no_case;
use nom::combinator::{opt, value};
use nom::{IResult, Parser};

fn error<'a, T>(input: &'a str, code: ErrorKind) -> Result<(&'a str, T), CfstParseError<'a>> {
    Err(CfstParseError::Error { input, code })
}

#[test]
fn test_parse_cfst_mode() {
    assert_eq!(CfstMode::parse("tcp:443"), Ok(("", CfstMode::Tcp)));
    assert_eq!(CfstMode::parse("tcp:443,httping"), Ok(("", CfstMode::TcpHttping)));
    assert_eq!(
        CfstMode::parse("tcp:443,httping,download"),
        Ok(("", CfstMode::TcpHttpingDownload))
    );
    assert_eq!(CfstMode::parse("download"), Ok(("", CfstMode::TcpHttpingDownload)));
}

#[test]
fn test_parse_duration() {
    assert_eq!(parse_duration("1h"), Ok(("", Duration::from_secs(3600))));
    assert_eq!(parse_duration("30m"), Ok(("", Duration::from_secs(1800))));
    assert_eq!(parse_duration("300"), Ok(("", Duration::from_secs(300))));
}

#[test]
fn test_parse_speed() {
    assert_eq!(parse_speed("5M"), Ok(("", 5_000_000 / 8)));
    assert_eq!(parse_speed("1024k"), Ok(("", 1_024_000 / 8)));
    assert_eq!(parse_speed("1000"), Ok(("", 1000)));
}

#[test]
fn test_parse_cfst_domain_simple() {
    let (_, rule) = CfstDomainRule::parse("/cdn.example.com/").unwrap();
    assert_eq!(rule.domain.to_string(), "cdn.example.com");
    assert!(rule.url.is_none());
    assert!(rule.ip_file.is_none());
    assert!(rule.result_count.is_none());
}

#[test]
fn test_parse_cfst_domain_with_options() {
    let input = "/assets.example.com/ -url https://assets.example.com/100m.bin -result-count 2";
    let (_, rule) = CfstDomainRule::parse(input).unwrap();
    assert_eq!(rule.domain.to_string(), "assets.example.com");
    assert_eq!(
        rule.url.unwrap().as_str(),
        "https://assets.example.com/100m.bin"
    );
    assert_eq!(rule.result_count, Some(2));
}

#[test]
fn modes_are_read_whatever_the_case() {
    assert_eq!(parse_cfst_mode("TCP:443,HTTPing rest"), Ok((" rest", CfstMode::TcpHttping)));
    assert_eq!(parse_cfst_mode("HttPing"), Ok(("", CfstMode::TcpHttping)));
    assert_eq!(parse_cfst_mode("tcp:8443"), Ok((":8443", CfstMode::Tcp)));
    assert_eq!(parse_cfst_mode("tcp:443,down"), Ok((",down", CfstMode::Tcp)));
    assert_eq!(parse_cfst_mode("udp"), error("udp", ErrorKind::Tag));
    assert_eq!(parse_cfst_mode(""), error("", ErrorKind::Tag));
}

fn nom_mode(input: &str) -> IResult<&str, CfstMode> {
    alt((
        value(
            CfstMode::TcpHttpingDownload,
            alt((tag_no_case("tcp:443,httping,download"), tag_no_case("download"))),
        ),
        value(CfstMode::TcpHttping, alt((tag_no_case("tcp:443,httping"), tag_no_case("httping")))),
        value(CfstMode::Tcp, alt((tag_no_case("tcp:443"), tag_no_case("tcp")))),
    ))
    .parse(input)
}

fn nom_error<'a, T>(r: IResult<&'a str, T>) -> Result<(&'a str, T), CfstParseError<'a>> {
    match r {
        Ok(read) => Ok(read),
        Err(nom::Err::Error(e)) => {
            let code = match e.code {
                nom::error::ErrorKind::Tag => ErrorKind::Tag,
                nom::error::ErrorKind::Digit => ErrorKind::Digit,
                nom::error::ErrorKind::Char => ErrorKind::Char,
                nom::error::ErrorKind::IsNot => ErrorKind::IsNot,
                nom::error::ErrorKind::Space => ErrorKind::Space,
                _ => panic!("unexpected {:?}", e.code),
            };
            Err(CfstParseError::Error { input: e.input, code })
        }
        Err(_) => panic!("no such error"),
    }
}

#[test]
fn modes_agree_with_nom() {
    for input in [
        "", "t", "tc", "tcp", "TCP", "tcp:", "tcp:44", "tcp:443", "tcp:443,", "tcp:443,httping",
        "tcp:443,HTTPING,", "tcp:443,httping,download", "tcp:443,httping,downloads", "download",
        "DOWNLOADX", "httping", "httpin", "\u{212a}tcp", "tc\u{ff50}", "tcp\u{e9}", " tcp",
        "d\u{f6}wnload", "http\u{130}ng",
    ] {
        assert_eq!(parse_cfst_mode(input), nom_error(nom_mode(input)), "{input}");
    }
}

#[test]
fn numbers_agree_with_nom() {
    for input in [
        "", "0", "7", "007x", "18446744073709551615", "18446744073709551616",
        "99999999999999999999999", "12a", "a12", "-1", "+1", " 1", "1 ", "\u{663}", "1\u{663}",
        "00000000000000000000000000001s",
    ] {
        let num: IResult<&str, u64> = nom::character::complete::u64(input);
        match nom_error(num) {
            Err(e) => {
                assert_eq!(parse_duration(input), Err(e.clone()), "{input}");
                assert_eq!(parse_speed(input), Err(e), "{input}");
            }
            Ok((rest, num)) => {
                let unit: IResult<&str, Option<char>> =
                    opt(nom::character::complete::char('s')).parse(rest);
                let (after, _) = unit.unwrap();
                assert_eq!(parse_duration(input), Ok((after, Duration::from_secs(num))), "{input}");
                assert_eq!(parse_speed(input), Ok((rest, num)), "{input}");
            }
        }
    }
}

#[test]
fn durations_have_units() {
    assert_eq!(parse_duration("2H rest"), Ok((" rest", Duration::from_secs(7200))));
    assert_eq!(parse_duration("2M"), Ok(("", Duration::from_secs(120))));
    assert_eq!(parse_duration("300s"), Ok(("", Duration::from_secs(300))));
    assert_eq!(parse_duration("5S5"), Ok(("5", Duration::from_secs(5))));
    assert_eq!(parse_duration("5d"), Ok(("d", Duration::from_secs(5))));
    assert_eq!(parse_duration("h"), error("h", ErrorKind::Digit));
    assert_eq!(parse_duration(""), error("", ErrorKind::Digit));
    assert_eq!(
        parse_duration("18446744073709551616"),
        error("18446744073709551616", ErrorKind::Digit)
    );
    assert_eq!(parse_duration("60m").unwrap().1, parse_duration("1h").unwrap().1);
    assert_eq!(parse_duration("0h").unwrap().1.nanos, 0);
}

#[test]
fn durations_that_do_not_fit_are_told() {
    assert!(duration_fits("1h"));
    assert!(duration_fits("no number"));
    assert!(duration_fits("18446744073709551615"));
    assert!(duration_fits("18446744073709551615s"));
    assert!(duration_fits("5124095576030431h"));
    assert!(!duration_fits("5124095576030432h"));
    assert!(!duration_fits("18446744073709551615m"));
    assert_eq!(
        parse_duration("5124095576030431h").unwrap().1,
        Duration::from_secs(5124095576030431 * 3600)
    );
}

#[test]
fn speeds_have_units() {
    assert_eq!(parse_speed("10m"), Ok(("", 1_250_000)));
    assert_eq!(parse_speed("1K/s"), Ok(("/s", 125)));
    assert_eq!(parse_speed("2g"), Ok(("", 250_000_000)));
    assert_eq!(parse_speed("1G"), Ok(("", 125_000_000)));
    assert_eq!(parse_speed("3T"), Ok(("T", 3)));
    assert_eq!(parse_speed("M"), error("M", ErrorKind::Digit));
}

#[test]
fn speeds_that_do_not_fit_are_told() {
    assert!(speed_fits("5M"));
    assert!(speed_fits("x"));
    assert!(speed_fits("18446744073709551615"));
    assert!(speed_fits("18446744073G"));
    assert!(!speed_fits("18446744074G"));
    assert!(!speed_fits("18446744073709551615k"));
    assert_eq!(parse_speed("18446744073G"), Ok(("", 2_305_843_009_125_000_000)));
}

#[test]
fn domains_stand_between_slashes() {
    assert_eq!(Domain::parse("/A.b./x").unwrap().0, "x");
    assert_eq!(Domain::parse("/A.b./x").unwrap().1.to_string(), "a.b");
    assert_eq!(Domain::parse("a.b"), error("a.b", ErrorKind::Char));
    assert_eq!(Domain::parse(""), error("", ErrorKind::Char));
    assert_eq!(Domain::parse("//"), error("/", ErrorKind::IsNot));
    assert_eq!(Domain::parse("/a.b"), error("", ErrorKind::Char));
    assert_eq!(Domain::parse("/a b/"), error(" b/", ErrorKind::Char));
}

#[test]
fn options_are_read_one_by_one() {
    assert_eq!(parse_option(" \t-URL  x y"), Ok((" y", CfstOption::Url("x"))));
    assert_eq!(parse_option("-ip-file\tf\n"), Ok(("\n", CfstOption::IpFile("f"))));
    assert_eq!(parse_option("-Result-Count 12x"), Ok(("x", CfstOption::ResultCount(12))));
    assert_eq!(parse_option("  -unknown 1"), Ok(("-unknown 1", CfstOption::End)));
    assert_eq!(parse_option("  "), Ok(("", CfstOption::End)));
    assert_eq!(parse_option("-urlx"), error("x", ErrorKind::Space));
    assert_eq!(parse_option("-url "), error("", ErrorKind::IsNot));
    assert_eq!(parse_option("-ip-file \n"), error("\n", ErrorKind::IsNot));
    assert_eq!(parse_option("-result-count"), error("", ErrorKind::Space));
    assert_eq!(parse_option("-result-count two"), error("two", ErrorKind::Digit));
}

#[test]
fn lines_take_options_in_any_order() {
    let line = "/A.B/-result-count 3  -ip-file /etc/ip.txt -url http://EXAMPLE.com -junk";
    let (rest, rule) = parse_cfst_domain(line).unwrap();
    assert_eq!(rest, "-junk");
    assert_eq!(rule.domain.to_string(), "a.b");
    assert_eq!(rule.result_count, Some(3));
    assert_eq!(rule.ip_file.as_deref(), Some("/etc/ip.txt"));
    assert_eq!(rule.url.as_deref(), Some("http://example.com/"));
}

#[test]
fn the_last_of_equal_options_counts() {
    let (_, rule) = parse_cfst_domain("/a/ -result-count 3 -result-count 4").unwrap();
    assert_eq!(rule.result_count, Some(4));
}

#[test]
fn a_wrong_url_fails_the_line() {
    assert_eq!(
        parse_cfst_domain("/a/ -url not-a-url -result-count 1"),
        Err(CfstParseError::Failure { input: "not-a-url", code: ErrorKind::Verify })
    );
}

#[test]
fn the_url_is_set_as_it_was_read() {
    let (_, mut rule) = parse_cfst_domain("/a/ -result-count 1").unwrap();
    assert_eq!(
        rule.set_url("x", None),
        Err(CfstParseError::Failure { input: "x", code: ErrorKind::Verify })
    );
    assert!(rule.url.is_none());
    assert_eq!(rule.set_url("x", Some("y".to_string())), Ok(()));
    assert_eq!(rule.url.as_deref(), Some("y"));
    assert_eq!(rule.result_count, Some(1));
}

#[test]
fn errors_of_a_line_are_passed_on() {
    assert_eq!(parse_cfst_domain("a"), error("a", ErrorKind::Char));
    assert_eq!(parse_cfst_domain("/a/ -url"), error("", ErrorKind::Space));
    assert_eq!(
        parse_cfst_domain("/a/ -result-count 99999999999999999999999"),
        error("99999999999999999999999", ErrorKind::Digit)
    );
}

fn nom_url(input: &str) -> IResult<&str, &str> {
    let (input, _) = nom::character::complete::space0(input)?;
    let (input, _) = tag_no_case("-url")(input)?;
    let (input, _) = nom::character::complete::space1(input)?;
    nom::bytes::complete::is_not(" \t\r\n")(input)
}

#[test]
fn options_agree_with_nom() {
    for input in [
        "-url x", " \t-URL\t x\ty", "-urlx", "-url", "-url ", "-url \r\n", "-url a\rb", "-url \u{a0}",
        "-Url  \u{e9}\n", "-url\nx",
    ] {
        let want = nom_error(nom_url(input)).map(|(rest, word)| (rest, CfstOption::Url(word)));
        assert_eq!(parse_option(input), want, "{input}");
    }
}

fn nom_slashed(input: &str) -> IResult<&str, &str> {
    let (input, _) = nom::character::complete::char('/')(input)?;
    let (input, name) = nom::bytes::complete::is_not(" \t\r\n/")(input)?;
    let (input, _) = nom::character::complete::char('/')(input)?;
    Ok((input, name))
}

#[test]
fn domains_agree_with_nom() {
    for input in ["", "/", "//", "a/", "/a", "/a/", "/a/b/c", "/a b/", "/\u{e9}.x/ -url", "/\ta/", " /a/"] {
        let want = nom_error(nom_slashed(input)).map(|(rest, name)| (rest, name.to_string()));
        let got = Domain::parse(input).map(|(rest, domain)| (rest, domain.to_string()));
        assert_eq!(got, want, "{input}");
    }
}

#[test]
fn the_longest_word_is_the_mode() {
    let words = [
        ("tcp", CfstMode::Tcp),
        ("tcp:443", CfstMode::Tcp),
        ("httping", CfstMode::TcpHttping),
        ("tcp:443,httping", CfstMode::TcpHttping),
        ("download", CfstMode::TcpHttpingDownload),
        ("tcp:443,httping,download", CfstMode::TcpHttpingDownload),
    ];
    for input in ["tcp", "tcp:44", "tcp:443", "tcp:443,", "tcp:443,httping,", "tcp:443,httping,download",
        "download,tcp", "httping,download"]
    {
        let (word, mode) =
            words.iter().filter(|w| input.starts_with(w.0)).max_by_key(|w| w.0.len()).unwrap();
        assert_eq!(parse_cfst_mode(input), Ok((&input[word.len()..], *mode)));
    }
}
