use lua_patterns::{
    generate_gsub_patterns, LuaPattern, LuaPatternBuilder, PatternError, Subst, Substitute,
};

#[test]
fn whitespace_removed_by_global_replacement() {
    let mut m = LuaPattern::new("%s+");
    assert_eq!(m.gsub("hello dolly you're so fine", ""), "hellodollyyou'resofine");
}

#[test]
fn balanced_match_spans_outer_parentheses() {
    let text = "(a(b)c)d";
    let mut m = LuaPattern::new("%b()");
    assert!(m.matches(text));
    assert_eq!(&text[m.range()], "(a(b)c)");
}

#[test]
fn frontier_finds_first_word() {
    let text = "  THE (quick) fox";
    let mut m = LuaPattern::new("%f[%a]%a+");
    assert!(m.matches(text));
    assert_eq!(&text[m.range()], "THE");
}

#[test]
fn frontier_at_end_of_subject() {
    let mut m = LuaPattern::new("%f[%A]");
    assert_eq!(m.gsub("THE (quick) fox", "|"), "THE| (quick|) fox|");
}

#[test]
fn construction_errors() {
    assert_eq!(LuaPattern::new_try("bonzo %").err(), Some(PatternError::EndsWithEscape));
    assert_eq!(LuaPattern::new_try("alles [%a%[").err(), Some(PatternError::UnfinishedCharClass));
    assert_eq!(LuaPattern::new_try("bonzo (dog (cat)").err(), Some(PatternError::UnfinishedCapture));
    assert_eq!(
        LuaPattern::new_try("frodo (1) (2(3)%2)%1").err(),
        Some(PatternError::InvalidCaptureIndex(Some(1)))
    );
    assert_eq!(LuaPattern::new_try("x%b(").err(), Some(PatternError::MalformedBalance));
    assert_eq!(LuaPattern::new_try("%fx").err(), Some(PatternError::MalformedFrontier));
    assert_eq!(LuaPattern::new_try("a)").err(), Some(PatternError::NoOpenCapture));
    assert_eq!(LuaPattern::new_try("(a)%0").err(), Some(PatternError::InvalidCaptureIndex(Some(-1))));
    assert_eq!(LuaPattern::new_try("()%1").err(), Some(PatternError::InvalidCaptureIndex(Some(0))));
    assert!(LuaPattern::new_try("(a)%1").is_ok());
}

#[test]
fn too_many_captures() {
    let ok = "(a)".repeat(32);
    assert!(LuaPattern::new_try(&ok).is_ok());
    let bad = "(a)".repeat(33);
    assert_eq!(LuaPattern::new_try(&bad).err(), Some(PatternError::TooManyCaptures));
}

#[test]
fn depth_limit_is_an_error() {
    let patt = "a?".repeat(250);
    let subject = "a".repeat(250);
    let mut m = LuaPattern::new(&patt);
    assert_eq!(m.try_match_at(subject.as_bytes(), 0), Err(PatternError::MatchDepthExceeded));
    assert!(!m.matches(&subject));
    assert_eq!(m.num_matches(), 0);
    let shallow = "a?".repeat(10);
    let mut m = LuaPattern::new(&shallow);
    assert_eq!(m.try_match_at(b"aaa", 0), Ok(true));
}

#[test]
fn leftmost_and_deterministic() {
    let mut a = LuaPattern::new("o%a");
    let mut b = LuaPattern::new("o%a");
    assert!(a.matches("dog oak oxen"));
    assert!(b.matches("dog oak oxen"));
    assert_eq!(a.range(), 1..3);
    assert_eq!(a.range(), b.range());
    assert!(a.matches("dog oak oxen"));
    assert_eq!(a.range(), b.range());
}

#[test]
fn capture_order_follows_opening_parentheses() {
    let text = "abcd";
    let mut m = LuaPattern::new("((a)(b(c)))d");
    let v = m.captures(text);
    assert_eq!(v, &["abcd", "abc", "a", "bc", "c"]);
}

#[test]
fn greedy_lazy_and_optional() {
    let mut m = LuaPattern::new("<(.*)>");
    assert_eq!(m.match_maybe("<a><b>"), Some("a><b"));
    let mut m = LuaPattern::new("<(.-)>");
    assert_eq!(m.match_maybe("<a><b>"), Some("a"));
    let mut m = LuaPattern::new("^ab?c$");
    assert!(m.matches("ac"));
    assert!(m.matches("abc"));
    assert!(!m.matches("abbc"));
    let mut m = LuaPattern::new("x+$");
    assert!(m.matches("axxx"));
    assert_eq!(m.range(), 1..4);
}

#[test]
fn classes_and_sets() {
    let mut m = LuaPattern::new("[%d_]+");
    assert_eq!(m.match_maybe("ab 12_3 cd"), Some("12_3"));
    let mut m = LuaPattern::new("[^%s]+");
    assert_eq!(m.match_maybe("  word "), Some("word"));
    let mut m = LuaPattern::new("[a-c]+");
    assert_eq!(m.match_maybe("xxbcaz"), Some("bca"));
    let mut m = LuaPattern::new("[]]");
    assert!(m.matches("a]"));
    let mut m = LuaPattern::new("%x+%p");
    assert_eq!(m.match_maybe("zz 0fA!"), Some("0fA!"));
    let mut m = LuaPattern::new("%u%l%w");
    assert_eq!(m.match_maybe("aAb1"), Some("Ab1"));
}

#[test]
fn back_reference_and_position_capture() {
    let mut m = LuaPattern::new("(%a)%1");
    assert_eq!(m.match_maybe("abccd"), Some("c"));
    let mut m = LuaPattern::new("()ll()");
    assert!(m.matches("hello"));
    assert_eq!(m.capture(1), 2..2);
    assert_eq!(m.capture(2), 4..4);
}

#[test]
fn empty_subject_and_empty_pattern() {
    let mut m = LuaPattern::new("");
    assert!(m.matches(""));
    assert_eq!(m.range(), 0..0);
    let mut m = LuaPattern::new("a*");
    assert!(m.matches(""));
    let mut m = LuaPattern::new("a");
    assert!(!m.matches(""));
    assert_eq!(m.num_matches(), 0);
}

#[test]
fn zero_width_matches_make_progress() {
    let mut m = LuaPattern::new("x*");
    assert_eq!(m.gsub("abc", "-"), "-a-b-c-");
    let mut m = LuaPattern::new("%a*");
    let mut it = m.gmatch("ab cd");
    assert_eq!(it.next(), Some("ab"));
    assert_eq!(it.next(), Some(""));
    assert_eq!(it.next(), Some("cd"));
    assert_eq!(it.next(), Some(""));
    assert_eq!(it.next(), None);
}

#[test]
fn byte_matching() {
    let patt = &[0xFE, 0xEE, b'+', 0xED];
    let mut m = LuaPattern::from_bytes(patt);
    let bytes = &[0x00, 0x01, 0xFE, 0xEE, 0xEE, 0xED, 0xEF];
    assert!(m.matches_bytes(bytes));
    assert_eq!(&bytes[m.range()], &[0xFE, 0xEE, 0xEE, 0xED]);

    let bytes = &[0xAA, 0x01, 0x01, 0x03, 0xBB, 0x01, 0x01, 0x01];
    let patt = &[0x01, b'+'];
    let mut m = LuaPattern::from_bytes(patt);
    let mut iter = m.gmatch_bytes(bytes);
    assert_eq!(iter.next().unwrap(), &[0x01, 0x01]);
    assert_eq!(iter.next().unwrap(), &[0x01, 0x01, 0x01]);
    assert_eq!(iter.next(), None);

    let bytes = &[0xAA, 0x01, 0x02, 0x03, 0xBB];
    let patt = &[0x01, 0x02];
    let mut m = LuaPattern::from_bytes(patt);
    let res = m.gsub_bytes_with(bytes, |_cc| vec![0xFF]);
    assert_eq!(res, &[0xAA, 0xFF, 0x03, 0xBB]);
}

#[test]
fn match_maybe_variants() {
    let mut m = LuaPattern::new("OK%s+(%d+)");
    assert_eq!(m.match_maybe("and that's OK 400 to you"), Some("400"));
    let mut p = LuaPattern::new("(%d+)/(%d+)/(%d+)");
    let (y, mo, d) = p.match_maybe_3("2017/11/10").unwrap();
    assert_eq!((y, mo, d), ("2017", "11", "10"));
    assert_eq!(p.match_maybe_2("2017/11/10"), None);
    assert_eq!(p.match_maybe_3("no date"), None);
}

#[test]
fn capture_into_and_first_capture() {
    let text = "  hello one";
    let mut m = LuaPattern::new("(%S+) one");
    let mut v = Vec::new();
    assert!(m.capture_into(text, &mut v));
    assert_eq!(v, &["hello one", "hello"]);
    assert_eq!(m.first_capture(), 2..7);
    let cc = m.match_captures(text);
    assert_eq!(cc.num_matches(), 2);
    assert_eq!(cc.get(40), "");
}

#[test]
fn template_pieces_and_substitute() {
    let items = generate_gsub_patterns("a%1b%%c%x");
    assert_eq!(items.len(), 5);
    assert!(matches!(&items[0], Subst::Text(t) if t == b"a"));
    assert!(matches!(&items[1], Subst::Capture(1)));
    assert!(matches!(&items[2], Subst::Text(t) if t == b"b"));
    assert!(matches!(&items[3], Subst::Text(t) if t == b"%"));
    assert!(matches!(&items[4], Subst::Text(t) if t == b"c%x"));
    assert!(matches!(Subst::new_text("q"), Subst::Text(t) if t == b"q"));

    let text = "key = value";
    let mut m = LuaPattern::new("(%w+)%s*=%s*(%w+)");
    assert!(m.matches(text));
    let s = Substitute::new("%2:%1 (%0) 100%%");
    assert_eq!(s.subst(&m, text), "value:key (key = value) 100%");
}

#[test]
fn builder_escapes_and_hex() {
    let patt = LuaPatternBuilder::new().text("(boo)").build();
    assert_eq!(std::str::from_utf8(&patt).unwrap(), "(boo)");
    let patt = LuaPatternBuilder::new()
        .text_lines(
            "
      hello-dolly
      you-are-fine  # comment
      cool
     ",
        )
        .build();
    assert_eq!(std::str::from_utf8(&patt).unwrap(), "hello-dollyyou-are-finecool");
    let patt = LuaPatternBuilder::new().text("^").bytes(b"^").build();
    assert_eq!(std::str::from_utf8(&patt).unwrap(), "^%^");
    let patt = LuaPatternBuilder::new().text("^").bytes_as_hex("5E").build();
    assert_eq!(std::str::from_utf8(&patt).unwrap(), "^%^");
    assert_eq!(LuaPatternBuilder::hex_to_bytes("AEFE00FE"), &[0xAE, 0xFE, 0x00, 0xFE]);
    assert_eq!(LuaPatternBuilder::bytes_to_hex(&[0xAE, 0xFE, 0x00, 0xFE]), "AEFE00FE");

    let bytes = &[0xFF, 0xEE, 0x0, 0xDE, 0x24, 0x24, 0xBE, 0x0, 0x0];
    let patt = LuaPatternBuilder::new().bytes_as_hex("DE24").text("+").bytes(&[0xBE]).build();
    let mut m = LuaPattern::from_bytes(&patt);
    assert!(m.matches_bytes(bytes));
    assert_eq!(&bytes[m.capture(0)], &[0xDE, 0x24, 0x24, 0xBE]);
}

#[test]
fn spans_that_split_a_character_read_as_empty_text() {
    let text = "é!";
    let mut m = LuaPattern::new(".");
    assert_eq!(m.match_maybe(text), Some(""));
    assert_eq!(m.range(), 0..1);
    assert!(m.matches_bytes(text.as_bytes()));
    let cc = m.match_captures(text);
    assert_eq!(cc.get(0), "");
}

#[test]
fn error_messages() {
    assert_eq!(PatternError::EndsWithEscape.message(), "malformed pattern (ends with '%')");
    assert_eq!(PatternError::InvalidCaptureIndex(Some(1)).message(), "invalid capture index %2");
    assert_eq!(PatternError::MatchDepthExceeded.message(), "pattern too complex");
}

#[test]
fn position_capture_has_no_text() {
    let text = "hello";
    let mut m = LuaPattern::new("()(ll)");
    assert!(m.matches(text));
    let cc = m.match_captures(text);
    assert_eq!(cc.try_get(1), Err(PatternError::NoCaptureLength));
    assert_eq!(cc.try_get(2), Ok("ll"));
    assert_eq!(cc.try_get(0), Ok("ll"));
}

#[test]
fn text_lines_splits_on_unicode_spaces() {
    let patt = LuaPatternBuilder::new().text_lines("ab\u{a0}cd\n\u{3000}ef gh\r\n").build();
    assert_eq!(std::str::from_utf8(&patt).unwrap(), "abef");
}

#[test]
fn gsub_with_identity_keeps_text() {
    let mut m = LuaPattern::new("%a+");
    let text = "one, two; three";
    assert_eq!(m.gsub_with(text, |cc| cc.get(0).to_string()), text);
    let bytes = &[1u8, 2, 3, 2, 2];
    let mut m = LuaPattern::from_bytes(&[2u8, b'+']);
    assert_eq!(m.gsub_bytes_with(bytes, |cc| cc.get(0).to_vec()), bytes.to_vec());
}
