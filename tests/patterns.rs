use lua_patterns::{LuaPattern, PatternError};
use std::collections::HashMap;

#[test]
fn captures_and_matching() {
    let mut m = LuaPattern::new("(one).+");
    assert_eq!(m.captures(" one two"), &["one two", "one"]);
    let empty: &[&str] = &[];
    assert_eq!(m.captures("four"), empty);

    assert_eq!(m.matches("one dog"), true);
    assert_eq!(m.matches("dog one "), true);
    assert_eq!(m.matches("dog one"), false);

    let text = "one dog";
    let mut m = LuaPattern::new("^(%a+)");
    assert_eq!(m.matches(text), true);
    assert_eq!(&text[m.capture(1)], "one");
    assert_eq!(m.matches(" one dog"), false);

    // captures without allocation
    m.matches(text);
    let captures = m.match_captures(text);
    assert_eq!(captures.get(0), "one");
    assert_eq!(captures.get(1), "one");

    let mut m = LuaPattern::new("(%S+)%s*=%s*(.+)");

    //  captures as Vec
    let cc = m.captures(" hello= bonzo dog");
    assert_eq!(cc[0], "hello= bonzo dog");
    assert_eq!(cc[1], "hello");
    assert_eq!(cc[2], "bonzo dog");
}

#[test]
fn multiple_captures() {
    let mut p = LuaPattern::new("%s*(%d+)%s+(%S+)");
    let (int, rest) = p.match_maybe_2(" 233   hello dolly").unwrap();
    assert_eq!(int, "233");
    assert_eq!(rest, "hello");
}

#[test]
fn gmatch() {
    let mut m = LuaPattern::new("%a+");
    let mut iter = m.gmatch("one two three");
    assert_eq!(iter.next(), Some("one"));
    assert_eq!(iter.next(), Some("two"));
    assert_eq!(iter.next(), Some("three"));
    assert_eq!(iter.next(), None);

    let mut m = LuaPattern::new("(%a+)");
    let mut iter = m.gmatch("one two three");
    assert_eq!(iter.next(), Some("one"));
    assert_eq!(iter.next(), Some("two"));
    assert_eq!(iter.next(), Some("three"));
    assert_eq!(iter.next(), None);

    let mut m = LuaPattern::new("(%a+)");
    let mut iter = m.gmatch_captures("one two three");
    assert_eq!(iter.next().unwrap().get(1), "one");
    assert_eq!(iter.next().unwrap().get(1), "two");
    assert_eq!(iter.next().unwrap().get(1), "three");
}

#[test]
fn gsub() {
    let mut m = LuaPattern::new("%$(%S+)");
    let res = m.gsub_with("hello $dolly you're so $fine!", |cc| cc.get(1).to_uppercase());
    assert_eq!(res, "hello DOLLY you're so FINE!");

    let mut map = HashMap::new();
    map.insert("dolly", "baby");
    map.insert("fine", "cool");
    map.insert("good-looking", "pretty");

    let mut m = LuaPattern::new("%$%((.-)%)");
    let res = m.gsub_with(
        "hello $(dolly) you're so $(fine) and $(good-looking)",
        |cc| map.get(cc.get(1)).unwrap_or(&"?").to_string(),
    );
    assert_eq!(res, "hello baby you're so cool and pretty");

    let mut m = LuaPattern::new("%s+");
    let res = m.gsub("hello dolly you're so fine", "");
    assert_eq!(res, "hellodollyyou'resofine");

    let mut m = LuaPattern::new("(%S+)%s*=%s*(%S+);%s*");
    let res = m.gsub("a=2; b=3; c = 4;", "'%2':%1 ");
    assert_eq!(res, "'2':a '3':b '4':c ");
}

#[test]
fn bad_patterns() {
    let bad = [
        ("bonzo %", PatternError::EndsWithEscape),
        ("bonzo (dog%(", PatternError::UnfinishedCapture),
        ("alles [%a%[", PatternError::UnfinishedCharClass),
        ("bonzo (dog (cat)", PatternError::UnfinishedCapture),
        ("frodo %f[%A", PatternError::UnfinishedCharClass),
        ("frodo (1) (2(3)%2)%1", PatternError::InvalidCaptureIndex(Some(1))),
    ];
    for p in bad.iter() {
        let res = LuaPattern::new_try(p.0);
        if let Err(e) = res {
            assert_eq!(e, p.1);
        } else {
            panic!("false positive");
        }
    }
}
