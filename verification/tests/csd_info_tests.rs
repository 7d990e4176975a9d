use csound_plugin::csd_info::{
    char_is_whitespace, get_csd_instruments_text, instruments_text_from_events, parse_csd_settings,
    settings_from_instruments, CsdSettings,
};
use csound_plugin::xml::XmlEvent;

const CSD: &str = "<CsoundSynthesizer>
<CsOptions>
-odac
</CsOptions>
<CsInstruments>
sr = 44100
ksmps = 32
nchnls = 2
nchnls_i = 4
0dbfs = 1

instr 1
  aL, aR ins
  outs aL, aR
endin
</CsInstruments>
<CsScore>
i 1 0 3600
</CsScore>
</CsoundSynthesizer>
";

fn settings(out_size: usize, in_size: usize) -> Option<CsdSettings> {
    Some(CsdSettings { out_size, in_size })
}

#[test]
fn default_settings_are_stereo() {
    let s = CsdSettings::default();
    assert_eq!(s.out_size, 2);
    assert_eq!(s.in_size, 2);
}

#[test]
fn parses_a_whole_document() {
    assert_eq!(parse_csd_settings(CSD), settings(2, 4));
}

#[test]
fn the_orchestra_text_is_the_first_text_inside_cs_instruments() {
    let text = get_csd_instruments_text(CSD).unwrap();
    assert!(text.starts_with("\nsr = 44100\n"));
    assert!(text.ends_with("endin\n"));
}

#[test]
fn a_document_without_instruments_has_no_settings() {
    assert_eq!(get_csd_instruments_text("<CsoundSynthesizer><CsScore>i 1 0 1</CsScore></CsoundSynthesizer>"), None);
    assert_eq!(parse_csd_settings("<CsoundSynthesizer></CsoundSynthesizer>"), None);
    assert_eq!(parse_csd_settings("not xml at all"), None);
    assert_eq!(parse_csd_settings(""), None);
}

#[test]
fn an_empty_instruments_element_has_no_text() {
    assert_eq!(get_csd_instruments_text("<CsInstruments></CsInstruments>"), None);
}

#[test]
fn a_document_without_nchnls_has_no_settings() {
    let csd = "<CsoundSynthesizer><CsInstruments>\nsr=48000\ninstr 1\nendin\n</CsInstruments></CsoundSynthesizer>";
    assert_eq!(parse_csd_settings(csd), None);
}

#[test]
fn the_input_count_defaults_to_zero() {
    assert_eq!(settings_from_instruments("nchnls = 8\n"), settings(8, 0));
}

#[test]
fn blanks_and_tabs_inside_a_line_are_ignored() {
    assert_eq!(settings_from_instruments("  n chnls\t=\t 1 0 \nnchnls_i =\t2"), settings(10, 2));
}

#[test]
fn leading_whitespace_is_trimmed() {
    assert_eq!(settings_from_instruments("\n\n\u{3000}\u{b}nchnls=2"), settings(2, 0));
}

#[test]
fn the_header_ends_at_the_first_instr_line() {
    assert_eq!(settings_from_instruments("instr 1\nnchnls=2\n"), None);
    assert_eq!(settings_from_instruments("nchnls=2\ninstr Foo\nnchnls_i=2\n"), settings(2, 0));
}

#[test]
fn an_instr_line_with_an_equals_sign_does_not_end_the_header() {
    assert_eq!(settings_from_instruments("instrument=3\nnchnls=2"), settings(2, 0));
}

#[test]
fn the_last_assignment_wins() {
    assert_eq!(settings_from_instruments("nchnls=2\nnchnls=6\nnchnls_i=1\nnchnls_i=3"), settings(6, 3));
}

#[test]
fn an_invalid_value_keeps_the_earlier_one() {
    assert_eq!(settings_from_instruments("nchnls=4\nnchnls=x"), settings(4, 0));
    assert_eq!(settings_from_instruments("nchnls=x\nnchnls=4"), settings(4, 0));
}

#[test]
fn values_parse_as_usize() {
    assert_eq!(settings_from_instruments("nchnls=+3"), settings(3, 0));
    assert_eq!(settings_from_instruments("nchnls=-3"), None);
    assert_eq!(settings_from_instruments("nchnls=+"), None);
    assert_eq!(settings_from_instruments("nchnls="), None);
    assert_eq!(settings_from_instruments("nchnls=99999999999999999999999"), None);
    assert_eq!(settings_from_instruments("nchnls=007"), settings(7, 0));
}

#[test]
fn a_line_with_two_equals_signs_is_no_assignment() {
    assert_eq!(settings_from_instruments("nchnls==2"), None);
    assert_eq!(settings_from_instruments("nchnls=2=3\nnchnls=5"), settings(5, 0));
}

#[test]
fn crlf_line_endings_are_understood() {
    assert_eq!(settings_from_instruments("nchnls=2\r\nnchnls_i=2\r\n"), settings(2, 2));
    // a bare carriage return at the very end stays part of the value
    assert_eq!(settings_from_instruments("nchnls=2\r"), None);
}

#[test]
fn unicode_whitespace_is_recognised() {
    assert!(char_is_whitespace(' '));
    assert!(char_is_whitespace('\t'));
    assert!(char_is_whitespace('\u{3000}'));
    assert!(char_is_whitespace('\u{85}'));
    assert!(!char_is_whitespace('a'));
    assert!(!char_is_whitespace('\u{200b}'));
}

fn start(name: &str) -> XmlEvent {
    XmlEvent::Start(name.as_bytes().to_vec())
}

fn text(t: &str) -> XmlEvent {
    XmlEvent::Text(t.to_string())
}

#[test]
fn events_before_the_instruments_tag_are_ignored() {
    let evs = vec![
        start("CsoundSynthesizer"),
        text("outside"),
        XmlEvent::End,
        start("CsInstruments"),
        text("inside"),
        text("more"),
        XmlEvent::End,
        text("after"),
        XmlEvent::Eof,
    ];
    assert_eq!(instruments_text_from_events(&evs), Some("inside".to_string()));
}

#[test]
fn the_search_stops_at_the_first_closing_tag_inside() {
    let evs = vec![start("CsInstruments"), XmlEvent::Other, XmlEvent::End, text("late"), XmlEvent::Eof];
    assert_eq!(instruments_text_from_events(&evs), None);
}

#[test]
fn undecodable_text_inside_gives_no_text() {
    let evs = vec![start("CsInstruments"), XmlEvent::UndecodableText, text("x"), XmlEvent::End];
    assert_eq!(instruments_text_from_events(&evs), None);
    let evs = vec![XmlEvent::UndecodableText, start("CsInstruments"), text("x"), XmlEvent::End];
    assert_eq!(instruments_text_from_events(&evs), Some("x".to_string()));
}

#[test]
fn an_unclosed_instruments_element_ends_at_the_end_of_the_document() {
    let evs = vec![start("CsInstruments"), text("a"), XmlEvent::Eof, text("b")];
    assert_eq!(instruments_text_from_events(&evs), Some("a".to_string()));
    let evs = vec![start("CsInstruments"), text("a")];
    assert_eq!(instruments_text_from_events(&evs), Some("a".to_string()));
}

#[test]
fn nothing_after_the_closing_instr_line_matters() {
    let heads = ["", "nchnls=4\n", "nchnls=4\nnchnls_i=2\n", "sr=44100\n", " \n\t\n"];
    let tails = ["", "nchnls=8\n", "nchnls_i=6\nnchnls=1", "instr 2\nnchnls=9\n"];
    for h in heads.iter() {
        let base = settings_from_instruments(&format!("{}instr 1\n", h));
        for b in tails.iter() {
            assert_eq!(settings_from_instruments(&format!("{}instr 1\n{}", h, b)), base);
        }
    }
}
