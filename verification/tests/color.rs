use compositor::binary::Binary32;
use compositor::color::{parse_hex as parse, strip_color_fn};
use compositor::decimal::parse_single;
use compositor::layers::parse_color_or;

fn parse_hex(text: &str) -> Option<[f32; 4]> {
    parse(text).map(|c| c.map(|x| f32::from_bits(x.bits)))
}

#[test]
fn parse_hex_understands_rgba_caption_backgrounds() {
    let parsed = parse_hex("rgba(0, 0, 0, 0.55)").expect("rgba");
    assert!((parsed[3] - 0.55).abs() < 1e-6);
    assert_eq!([parsed[0], parsed[1], parsed[2]], [0.0, 0.0, 0.0]);
}

#[test]
fn parse_hex_treats_rgb_as_opaque() {
    let parsed = parse_hex("rgb(255, 128, 0)").expect("rgb");
    assert_eq!(parsed, [1.0, 128.0 / 255.0, 0.0, 1.0]);
}

#[test]
fn parse_hex_keeps_transparent_at_alpha_zero() {
    assert_eq!(parse_hex("transparent"), Some([0.0, 0.0, 0.0, 0.0]));
    assert_eq!(parse_hex("Transparent"), Some([0.0, 0.0, 0.0, 0.0]));
    assert_eq!(parse_hex("rgba(0, 0, 0, 0)"), Some([0.0, 0.0, 0.0, 0.0]));
}

#[test]
fn parse_hex_still_understands_hex_colours() {
    assert_eq!(parse_hex("#fff"), Some([1.0, 1.0, 1.0, 1.0]));
    assert_eq!(parse_hex("#000000"), Some([0.0, 0.0, 0.0, 1.0]));
    assert_eq!(parse_hex("ff8800"), Some([1.0, 136.0 / 255.0, 0.0, 1.0]));
}

#[test]
fn parse_hex_rejects_malformed_colours() {
    assert_eq!(parse_hex(""), None);
    assert_eq!(parse_hex("not-a-color"), None);
    assert_eq!(parse_hex("rgba(256, 0, 0, 1)"), None);
    assert_eq!(parse_hex("rgba(0, 0, 0, 1.5)"), None);
    assert_eq!(parse_hex("rgba(0, 0, 0, 0.5, 1)"), None);
    assert_eq!(parse_hex("rgb(0, 0)"), None);
}

#[test]
fn parse_hex_accepts_both_arities_on_both_names() {
    assert_eq!(parse_hex("rgba(0, 0, 0)"), Some([0.0, 0.0, 0.0, 1.0]));
    assert_eq!(parse_hex("rgb(0, 0, 0, 0.5)"), Some([0.0, 0.0, 0.0, 0.5]));
}

#[test]
fn parse_hex_refuses_non_ascii_without_panicking() {
    assert_eq!(parse_hex("#ab€cd"), None);
    assert_eq!(parse_hex("rg€(0, 0, 0)"), None);
    assert_eq!(parse_hex("é"), None);
    assert_eq!(parse_hex("🎨🎨"), None);
    assert_eq!(parse_hex("éa"), None);
    assert_eq!(parse_hex("€€"), None);
}

#[test]
fn a_colour_that_is_none_gives_way_to_another() {
    let other = [Binary32 { bits: 1 }; 4];
    assert_eq!(parse_color_or("#fff", other), [Binary32::whole(1); 4]);
    assert_eq!(parse_color_or("plaid", other), other);
}

#[test]
fn decimal_numbers_round_as_the_standard_parser_does() {
    let texts = [
        "0", "-0", "1", "+1", "0.55", ".5", "5.", "1e3", "1E-3", "1e+2", "16777217", "16777219", "0.1",
        "3.4028235e38", "3.4028236e38", "3.5e38", "1e39", "-1e39", "1e-45", "7e-46", "7.1e-46",
        "1.1754943e-38", "1.17549421e-38", "340282346638528859811704183484516925440",
        "0.0000000000000000000000000000000000000000000014012984643248170709", "123456789.123456789",
        "inf", "-Infinity", "iNF", "infinity", "1e99999999999", "1e-99999999999", "9007199791611905",
        "", "+", "-", ".", "e5", "1e", "1e+", "1x", "--1", "1_000", " 1", "0x10", "infin", "1.2.3",
    ];
    for text in texts {
        let chars: Vec<char> = text.chars().collect();
        let ours = parse_single(&chars).map(|x| x.bits);
        let std = text.parse::<f32>().ok().map(f32::to_bits);
        assert_eq!(ours, std, "{text:?}");
    }
    let nan: Vec<char> = "NaN".chars().collect();
    assert!(f32::from_bits(parse_single(&nan).unwrap().bits).is_nan());
}

fn arguments(text: &str, name: &str) -> Option<String> {
    let text: Vec<char> = text.chars().collect();
    let name: Vec<char> = name.chars().collect();
    strip_color_fn(&text, &name).map(|inner| inner.iter().collect())
}

#[test]
fn blank_arguments_of_a_colour_function_are_refused() {
    assert_eq!(arguments("rgb(0, 0, 0)", "rgb"), Some(String::from("0, 0, 0")));
    assert_eq!(arguments("RGBA(\t0, 0, 0, 0.55 )", "rgba"), Some(String::from("0, 0, 0, 0.55")));
    assert_eq!(arguments("rgb(0, 0, 0,)", "rgb"), None);
    assert_eq!(arguments("rgb(0, 0, 0, )", "rgb"), None);
    assert_eq!(arguments("rgb(,0, 0)", "rgb"), None);
    assert_eq!(arguments("rgb(0, , 0)", "rgb"), None);
    assert_eq!(arguments("rgb()", "rgb"), None);
    assert_eq!(arguments("rgb(  )", "rgb"), None);
    assert_eq!(arguments("rgb(0)", "rgba"), None);
    assert_eq!(parse_hex("rgb(0, 0, 0,)"), None);
    assert_eq!(parse_hex("rgb(, 0, 0)"), None);
}

#[test]
fn a_colour_may_stand_between_white_space() {
    assert_eq!(parse_hex(" \t#ff8800\n"), parse_hex("ff8800"));
    assert_eq!(parse_hex("#f80"), parse_hex("#ff8800"));
    assert_eq!(parse_hex(" rgb(255, 136, 0) "), parse_hex("#f80"));
}
